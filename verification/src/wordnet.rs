//! The in-memory WordNet database: per-class record buffers, a lexical
//! index from headword to sense offsets, and the two search structures fed
//! from the index files at load time.
//!
//! An index file carries a license preamble of 29 lines, then one line per
//! headword: the headword itself, a category tag, a decimal sense count, and
//! later fields of which the last `count`, read right to left, are the byte
//! offsets of the senses in the class's data buffer.

use vstd::prelude::*;
use vstd::string::StrSliceExecFns;
use vstd::seq_lib::*;
use crate::bktree::BKTree;
use crate::distance::{edit_distance, error_budget};
use crate::record::{Gloassary, GloassaryView, Word, parse_record, spec_parse_record};
use crate::text::{
    chars_of,
    find_char,
    find_char_from,
    parse_usize_range,
    spec_parse_usize,
    spec_split_spaces,
    spec_trim_chars,
    tok_views,
    tokens_of_range,
    trim_range,
};
use crate::trie::WordTrie;

verus! {

/// A line piece as `str::lines` hands it out: without its trailing carriage
/// return when one sat before the line feed.
pub open spec fn strip_cr(l: Seq<char>) -> Seq<char> {
    if l.len() > 0 && l.last() == '\r' {
        l.drop_last()
    } else {
        l
    }
}

/// The lines of a text, split at line feeds; a trailing line feed opens no
/// extra empty line.
pub open spec fn spec_lines(s: Seq<char>) -> Seq<Seq<char>>
    decreases s.len(),
{
    if s.len() == 0 {
        Seq::empty()
    } else {
        match find_char(s, 0, '\n') {
            Some(p) => if 0 <= p < s.len() {
                seq![strip_cr(s.subrange(0, p))] + spec_lines(s.subrange(p + 1, s.len() as int))
            } else {
                seq![s]
            },
            None => seq![s],
        }
    }
}

/// Drops the fixed license preamble.
pub open spec fn skip_preamble(ls: Seq<Seq<char>>) -> Seq<Seq<char>> {
    if ls.len() <= 29 {
        Seq::empty()
    } else {
        ls.skip(29)
    }
}

/// The first `k` sense offsets of a line, read from its last token leftward.
pub open spec fn offsets_rev(toks: Seq<Seq<char>>, k: int) -> Option<Seq<usize>>
    decreases k,
{
    if k <= 0 {
        Some(Seq::empty())
    } else {
        match offsets_rev(toks, k - 1) {
            Some(os) => match spec_parse_usize(toks[toks.len() - k]) {
                Some(v) => Some(os.push(v as usize)),
                None => None,
            },
            None => None,
        }
    }
}

/// One index line: the headword, and its sense offsets in reverse file
/// order. A line without enough tokens, with an unreadable count or with an
/// unreadable offset is malformed.
pub open spec fn spec_parse_index_line(line: Seq<char>) -> Option<(Seq<char>, Seq<usize>)> {
    let toks = spec_split_spaces(spec_trim_chars(line));
    if toks.len() < 3 {
        None
    } else {
        match spec_parse_usize(toks[2]) {
            Some(cnt) => if cnt > toks.len() {
                None
            } else {
                match offsets_rev(toks, cnt) {
                    Some(os) => Some((toks[0], os)),
                    None => None,
                }
            },
            None => None,
        }
    }
}

/// All entries of an index listing, in line order; `None` as soon as one
/// line is malformed.
pub open spec fn spec_entries(ls: Seq<Seq<char>>) -> Option<Seq<(Seq<char>, Seq<usize>)>>
    decreases ls.len(),
{
    if ls.len() == 0 {
        Some(Seq::empty())
    } else {
        match spec_entries(ls.drop_last()) {
            Some(es) => match spec_parse_index_line(ls.last()) {
                Some(e) => Some(es.push(e)),
                None => None,
            },
            None => None,
        }
    }
}

/// What one class's index file contributes, preamble skipped.
pub open spec fn class_entries(text: Seq<char>) -> Option<Seq<(Seq<char>, Seq<usize>)>> {
    spec_entries(skip_preamble(spec_lines(text)))
}

/// Last-entry-wins association lookup, the way repeated index lines
/// overwrite one another.
pub open spec fn assoc_last(es: Seq<(Seq<char>, Seq<usize>)>, k: Seq<char>) -> Option<Seq<usize>>
    decreases es.len(),
{
    if es.len() == 0 {
        None
    } else if es.last().0 == k {
        Some(es.last().1)
    } else {
        assoc_last(es.drop_last(), k)
    }
}

/// Whether `v` is the headword of some entry.
pub open spec fn lemma_in(es: Seq<(Seq<char>, Seq<usize>)>, v: Seq<char>) -> bool {
    exists|t: int| 0 <= t < es.len() && (#[trigger] es[t]).0 == v
}

/// Per-class mapping from headword to the byte offsets of its senses.
pub struct LexIndex {
    entries: Vec<(String, Vec<usize>)>,
}

impl View for LexIndex {
    type V = Seq<(Seq<char>, Seq<usize>)>;

    closed spec fn view(&self) -> Seq<(Seq<char>, Seq<usize>)> {
        self.entries@.map_values(|e: (String, Vec<usize>)| (e.0@, e.1@))
    }
}

impl LexIndex {
    pub fn new() -> (r: LexIndex)
        ensures
            r@ == Seq::<(Seq<char>, Seq<usize>)>::empty(),
    {
        let r = LexIndex { entries: Vec::new() };
        proof {
            assert(r@ =~= Seq::<(Seq<char>, Seq<usize>)>::empty());
        }
        r
    }

    pub fn add(&mut self, lemma: String, offsets: Vec<usize>)
        ensures
            final(self)@ == old(self)@.push((lemma@, offsets@)),
    {
        let ghost l = lemma@;
        let ghost os = offsets@;
        let ghost pre = self@;
        self.entries.push((lemma, offsets));
        proof {
            assert(self@ =~= pre.push((l, os)));
        }
    }

    /// The offsets registered for `k`, favouring the latest registration.
    pub fn get(&self, k: &String) -> (r: Option<&Vec<usize>>)
        ensures
            match r {
                Some(v) => assoc_last(self@, k@) == Some(v@),
                None => assoc_last(self@, k@) is None,
            },
    {
        let mut t = self.entries.len();
        proof {
            assert(self@.subrange(0, t as int) =~= self@);
        }
        while t > 0
            invariant
                t <= self.entries@.len(),
                self@.len() == self.entries@.len(),
                assoc_last(self@, k@) == assoc_last(self@.subrange(0, t as int), k@),
            decreases t,
        {
            t = t - 1;
            proof {
                assert(self@.subrange(0, t + 1).last() == self@[t as int]);
                assert(self@.subrange(0, t + 1).drop_last() =~= self@.subrange(0, t as int));
                assert(self@[t as int] == (self.entries@[t as int].0@, self.entries@[t as int].1@));
            }
            if self.entries[t].0.eq(k) {
                return Some(&self.entries[t].1);
            }
        }
        proof {
            assert(assoc_last(self@.subrange(0, 0), k@) is None);
        }
        None
    }
}

/// A failed offset prefix fails the whole offset list.
proof fn lemma_offsets_rev_none(toks: Seq<Seq<char>>, j: int, k: int)
    requires
        offsets_rev(toks, j) is None,
        j <= k,
    ensures
        offsets_rev(toks, k) is None,
    decreases k - j,
{
    if j < k {
        lemma_offsets_rev_none(toks, j, k - 1);
    }
}

/// One malformed line fails the whole listing.
proof fn lemma_entries_bad(ls: Seq<Seq<char>>, t: int)
    requires
        0 <= t < ls.len(),
        spec_parse_index_line(ls[t]) is None,
    ensures
        spec_entries(ls) is None,
    decreases ls.len(),
{
    if t == ls.len() - 1 {
    } else {
        assert(ls.drop_last()[t] == ls[t]);
        lemma_entries_bad(ls.drop_last(), t);
    }
}

/// Looking for a character in a suffix finds it at the shifted position.
proof fn lemma_find_char_shift(s: Seq<char>, a: int, from: int, c: char)
    requires
        0 <= a <= s.len(),
        0 <= from,
    ensures
        find_char(s.subrange(a, s.len() as int), from, c) == match find_char(s, a + from, c) {
            Some(p) => Some(p - a),
            None => None::<int>,
        },
    decreases s.len() - a - from,
{
    let suf = s.subrange(a, s.len() as int);
    if from >= suf.len() {
    } else {
        assert(suf[from] == s[a + from]);
        if s[a + from] == c {
        } else {
            lemma_find_char_shift(s, a, from + 1, c);
        }
    }
}

/// Parses the index line held in `[ls, le)` of the corpus text.
fn parse_index_line(text: &str, v: &Vec<char>, ls: usize, le: usize) -> (r: Option<
    (String, Vec<usize>),
>)
    requires
        v@ == text@,
        ls <= le <= v@.len(),
    ensures
        match r {
            Some(e) => spec_parse_index_line(v@.subrange(ls as int, le as int)) == Some(
                (e.0@, e.1@),
            ),
            None => spec_parse_index_line(v@.subrange(ls as int, le as int)) is None,
        },
{
    let ghost line = v@.subrange(ls as int, le as int);
    let (a, b) = trim_range(v, ls, le);
    let toks = tokens_of_range(v, a, b);
    let ghost tv = spec_split_spaces(spec_trim_chars(line));
    proof {
        assert(tv == tok_views(v@, toks@));
        assert(tv.len() == toks@.len());
    }
    if toks.len() < 3 {
        return None;
    }
    let (c2a, c2b) = toks[2];
    proof {
        assert(tv[2] == v@.subrange(c2a as int, c2b as int));
    }
    let cnt = match parse_usize_range(v, c2a, c2b) {
        Some(c) => c,
        None => {
            return None;
        },
    };
    if cnt > toks.len() {
        return None;
    }
    let mut os: Vec<usize> = Vec::new();
    let mut i: usize = 0;
    while i < cnt
        invariant
            i <= cnt <= toks@.len(),
            ls <= le <= v@.len(),
            line == v@.subrange(ls as int, le as int),
            tv == spec_split_spaces(spec_trim_chars(line)),
            3 <= toks@.len(),
            spec_parse_usize(tv[2]) == Some(cnt as int),
            tv == tok_views(v@, toks@),
            tv.len() == toks@.len(),
            forall|t: int| 0 <= t < toks@.len() ==> (#[trigger] toks@[t]).0 <= toks@[t].1
                <= v@.len(),
            offsets_rev(tv, i as int) == Some(os@),
        decreases cnt - i,
    {
        let (ta, tb) = toks[toks.len() - 1 - i];
        proof {
            assert(tv[toks@.len() - 1 - i as int] == v@.subrange(ta as int, tb as int));
        }
        let val = match parse_usize_range(v, ta, tb) {
            Some(x) => x,
            None => {
                proof {
                    assert(offsets_rev(tv, i + 1) is None);
                    lemma_offsets_rev_none(tv, i + 1, cnt as int);
                }
                return None;
            },
        };
        os.push(val);
        i = i + 1;
    }
    let (l0a, l0b) = toks[0];
    let lemma_str = text.substring_char(l0a, l0b).to_owned();
    proof {
        assert(tv[0] == v@.subrange(l0a as int, l0b as int));
        assert(lemma_str@ == tv[0]);
    }
    Some((lemma_str, os))
}

proof fn lemma_push_contains(s: Seq<Seq<char>>, x: Seq<char>, y: Seq<char>)
    ensures
        s.push(x).contains(y) <==> (s.contains(y) || x == y),
{
    if s.push(x).contains(y) {
        let t = choose|t: int| 0 <= t < s.push(x).len() && s.push(x)[t] == y;
        if t < s.len() {
            assert(s[t] == y);
        }
    }
    if s.contains(y) {
        let t = choose|t: int| 0 <= t < s.len() && s[t] == y;
        assert(s.push(x)[t] == y);
    }
    if x == y {
        assert(s.push(x)[s.len() as int] == y);
    }
}

proof fn lemma_lemma_in_push(es: Seq<(Seq<char>, Seq<usize>)>, e: (Seq<char>, Seq<usize>), w: Seq<
    char,
>)
    ensures
        lemma_in(es.push(e), w) <==> (lemma_in(es, w) || e.0 == w),
{
    if lemma_in(es.push(e), w) {
        let t = choose|t: int| 0 <= t < es.push(e).len() && (#[trigger] es.push(e)[t]).0 == w;
        if t < es.len() {
            assert(es[t].0 == w);
        }
    }
    if lemma_in(es, w) {
        let t = choose|t: int| 0 <= t < es.len() && (#[trigger] es[t]).0 == w;
        assert(es.push(e)[t].0 == w);
    }
    if e.0 == w {
        assert(es.push(e)[es.len() as int].0 == w);
    }
}

/// Loads one class's index listing: registers every entry, and inserts each
/// headword into the trie and, when it was not yet known, into the metric
/// tree.
fn load_class(text: &String, trie: &mut WordTrie, bk: &mut BKTree) -> (r: Option<LexIndex>)
    requires
        forall|w: Seq<char>| #[trigger] old(trie).contains_word(w) <==> old(bk).words().contains(
            w,
        ),
        forall|i: int, j: int|
            0 <= i < j < old(bk).words().len() ==> (#[trigger] old(bk).words()[i]) != (
            #[trigger] old(bk).words()[j]),
    ensures
        forall|w: Seq<char>| #[trigger] final(trie).contains_word(w) <==> final(bk).words().contains(w),
        forall|i: int, j: int|
            0 <= i < j < final(bk).words().len() ==> (#[trigger] final(bk).words()[i]) != (
            #[trigger] final(bk).words()[j]),
        match r {
            Some(ix) => class_entries(text@) == Some(ix@) && forall|w: Seq<char>|
                #[trigger] final(trie).contains_word(w) <==> (old(trie).contains_word(w)
                    || lemma_in(ix@, w)),
            None => class_entries(text@) is None,
        },
{
    let cs = chars_of(text.as_str());
    let n = cs.len();
    let mut ix = LexIndex::new();
    let mut line_no: usize = 0;
    let mut ls: usize = 0;
    let ghost mut lines_done: Seq<Seq<char>> = Seq::empty();
    proof {
        assert(text@.subrange(0, n as int) =~= text@);
        assert(spec_lines(text@) =~= lines_done + spec_lines(text@.subrange(0, n as int)));
        assert(skip_preamble(lines_done) =~= Seq::<Seq<char>>::empty());
    }
    while ls < n
        invariant
            n == cs@.len(),
            cs@ == text@,
            ls <= n,
            line_no <= ls,
            line_no as int == lines_done.len(),
            spec_lines(text@) == lines_done + spec_lines(text@.subrange(ls as int, n as int)),
            spec_entries(skip_preamble(lines_done)) == Some(ix@),
            forall|w: Seq<char>| #[trigger] trie.contains_word(w) <==> (old(trie).contains_word(w)
                || lemma_in(ix@, w)),
            forall|w: Seq<char>| #[trigger] trie.contains_word(w) <==> bk.words().contains(w),
            forall|i: int, j: int|
                0 <= i < j < bk.words().len() ==> (#[trigger] bk.words()[i]) != (
                #[trigger] bk.words()[j]),
        decreases n - ls,
    {
        let ghost suffix = text@.subrange(ls as int, n as int);
        let found = find_char_from(&cs, ls, '\n');
        let le: usize;
        let next_ls: usize;
        match found {
            Some(nl) => {
                if nl > ls && cs[nl - 1] == '\r' {
                    le = nl - 1;
                } else {
                    le = nl;
                }
                next_ls = nl + 1;
            },
            None => {
                le = n;
                next_ls = n;
            },
        }
        let ghost lineseq = text@.subrange(ls as int, le as int);
        proof {
            lemma_find_char_shift(text@, ls as int, 0, '\n');
            match found {
                Some(nl) => {
                    assert(find_char(suffix, 0, '\n') == Some(nl - ls));
                    assert(suffix.subrange(0, nl - ls) =~= text@.subrange(ls as int, nl as int));
                    assert(suffix.subrange(nl - ls + 1, suffix.len() as int) =~= text@.subrange(
                        next_ls as int,
                        n as int,
                    ));
                    if nl > ls && text@[nl - 1] == '\r' {
                        assert(strip_cr(text@.subrange(ls as int, nl as int)) =~= lineseq);
                    } else {
                        assert(strip_cr(text@.subrange(ls as int, nl as int)) =~= lineseq);
                    }
                    assert(spec_lines(suffix) == seq![lineseq] + spec_lines(
                        text@.subrange(next_ls as int, n as int),
                    ));
                },
                None => {
                    assert(find_char(suffix, 0, '\n') is None);
                    assert(suffix.len() > 0);
                    assert(suffix =~= lineseq);
                    assert(spec_lines(text@.subrange(next_ls as int, n as int)) =~= Seq::<
                        Seq<char>,
                    >::empty());
                    assert(spec_lines(suffix) =~= seq![lineseq] + spec_lines(
                        text@.subrange(next_ls as int, n as int),
                    ));
                },
            }
        }
        if line_no >= 29 {
            match parse_index_line(text.as_str(), &cs, ls, le) {
                Some((lemma, offsets)) => {
                    let ghost pre_ix = ix@;
                    let ghost pre_trie = *trie;
                    let ghost pre_bk = *bk;
                    let ghost lm = lemma@;
                    let ghost osv = offsets@;
                    let inserted = trie.insert(lemma.clone());
                    if inserted {
                        bk.insert(lemma.clone());
                    }
                    ix.add(lemma, offsets);
                    proof {
                        assert(ix@ == pre_ix.push((lm, osv)));
                        // which words the trie now holds
                        assert forall|w: Seq<char>| #[trigger] trie.contains_word(w) <==> (old(
                            trie,
                        ).contains_word(w) || lemma_in(ix@, w)) by {
                            lemma_lemma_in_push(pre_ix, (lm, osv), w);
                            assert(trie.contains_word(w) <==> (pre_trie.contains_word(w) || w
                                == lm));
                        }
                        // the metric tree stays in step with the trie
                        assert forall|w: Seq<char>| #[trigger] trie.contains_word(w) <==> bk.words(
                        ).contains(w) by {
                            if inserted {
                                assert(bk.words() == pre_bk.words().push(lm));
                                lemma_push_contains(pre_bk.words(), lm, w);
                            } else {
                                assert(pre_trie.contains_word(lm));
                            }
                            assert(trie.contains_word(w) <==> (pre_trie.contains_word(w) || w
                                == lm));
                        }
                        // a headword enters the metric tree at most once
                        assert forall|i: int, j: int|
                            0 <= i < j < bk.words().len() implies (#[trigger] bk.words()[i]) != (
                        #[trigger] bk.words()[j]) by {
                            if inserted {
                                assert(bk.words() == pre_bk.words().push(lm));
                                assert(!pre_trie.contains_word(lm));
                                assert(!pre_bk.words().contains(lm));
                                if j == pre_bk.words().len() as int {
                                    assert(bk.words()[j] == lm);
                                    assert(bk.words()[i] == pre_bk.words()[i]);
                                    if pre_bk.words()[i] == lm {
                                        assert(pre_bk.words().contains(lm));
                                    }
                                } else {
                                    assert(bk.words()[i] == pre_bk.words()[i]);
                                    assert(bk.words()[j] == pre_bk.words()[j]);
                                }
                            }
                        }
                        // the processed lines grow by this one
                        let old_lines = lines_done;
                        lines_done = lines_done.push(lineseq);
                        assert(old_lines + spec_lines(suffix) =~= lines_done + spec_lines(
                            text@.subrange(next_ls as int, n as int),
                        ));
                        let old_sp = skip_preamble(old_lines);
                        let new_sp = skip_preamble(lines_done);
                        assert(new_sp =~= old_sp.push(lineseq));
                        assert(new_sp.drop_last() =~= old_sp);
                        assert(spec_parse_index_line(lineseq) == Some((lm, osv)));
                        assert(spec_entries(new_sp) == Some(ix@));
                    }
                },
                None => {
                    proof {
                        let all = spec_lines(text@);
                        assert(all == lines_done + (seq![lineseq] + spec_lines(
                            text@.subrange(next_ls as int, n as int),
                        )));
                        assert(all[line_no as int] == lineseq);
                        let sp = skip_preamble(all);
                        assert(all.len() > 29);
                        assert(sp[line_no - 29] == lineseq);
                        lemma_entries_bad(sp, line_no - 29);
                    }
                    return None;
                },
            }
        } else {
            proof {
                let old_lines = lines_done;
                lines_done = lines_done.push(lineseq);
                assert(old_lines + spec_lines(suffix) =~= lines_done + spec_lines(
                    text@.subrange(next_ls as int, n as int),
                ));
                assert(skip_preamble(lines_done) =~= skip_preamble(old_lines));
            }
        }
        line_no = line_no + 1;
        ls = next_ls;
    }
    proof {
        assert(text@.subrange(ls as int, n as int).len() == 0);
        assert(spec_lines(text@.subrange(ls as int, n as int)) =~= Seq::<Seq<char>>::empty());
        assert(spec_lines(text@) =~= lines_done);
    }
    Some(ix)
}

/// Whether a class index text parses and lists `w` as a headword.
pub open spec fn class_lemma_in(text: Seq<char>, w: Seq<char>) -> bool {
    match class_entries(text) {
        Some(es) => lemma_in(es, w),
        None => false,
    }
}

/// Records resolved for one class's offsets; `None` when any offset fails
/// to parse.
pub open spec fn records_for(buf: Seq<u8>, offs: Seq<usize>) -> Option<Seq<GloassaryView>>
    decreases offs.len(),
{
    if offs.len() == 0 {
        Some(Seq::empty())
    } else {
        match records_for(buf, offs.drop_last()) {
            Some(rs) => match spec_parse_record(buf, offs.last() as int) {
                Some(tri) => Some(
                    rs.push(GloassaryView { synonyms: tri.0, meanings: tri.1, examples: tri.2 }),
                ),
                None => None,
            },
            None => None,
        }
    }
}

proof fn lemma_records_prefix_none(buf: Seq<u8>, offs: Seq<usize>, j: int)
    requires
        0 <= j <= offs.len(),
        records_for(buf, offs.subrange(0, j)) is None,
    ensures
        records_for(buf, offs) is None,
    decreases offs.len() - j,
{
    if j < offs.len() {
        let p = offs.subrange(0, j + 1);
        assert(p.drop_last() =~= offs.subrange(0, j));
        lemma_records_prefix_none(buf, offs, j + 1);
    } else {
        assert(offs.subrange(0, offs.len() as int) =~= offs);
    }
}

/// In-memory WordNet database: the four class buffers, the lexical index of
/// each class, and the two search structures over the headwords.
pub struct WordNetDatabase {
    database: Vec<Vec<u8>>,
    word_trie: WordTrie,
    bktree: BKTree,
    index: Vec<LexIndex>,
}

impl WordNetDatabase {
    #[verifier::type_invariant]
    closed spec fn wf(self) -> bool {
        self.database@.len() == 4 && self.index@.len() == 4
    }

    /// The four class record buffers.
    pub closed spec fn buffers(self) -> Seq<Seq<u8>> {
        self.database.deep_view()
    }

    /// The index entries of class `c`, in registration order.
    pub closed spec fn index_entries(self, c: int) -> Seq<(Seq<char>, Seq<usize>)> {
        self.index@[c]@
    }

    /// The sense offsets class `c` registers for `k`.
    pub open spec fn class_offsets(self, c: int, k: Seq<char>) -> Option<Seq<usize>> {
        assoc_last(self.index_entries(c), k)
    }

    /// Whether `w` is a known headword.
    pub closed spec fn has_headword(self, w: Seq<char>) -> bool {
        self.word_trie.contains_word(w)
    }

    /// Whether some known headword starts with `p`.
    pub closed spec fn headword_prefix(self, p: Seq<char>) -> bool {
        self.word_trie.has_prefix(p)
    }

    /// The words the metric tree can suggest.
    pub closed spec fn suggestion_words(self) -> Seq<Seq<char>> {
        self.bktree.words()
    }

    /// Whether the metric tree's root has a child within reach of `q`, so
    /// that a suggestion for `q` is certain to come back.
    pub closed spec fn has_close_suggestion(self, q: Seq<char>) -> bool {
        self.bktree.has_close_root_child(q)
    }

    /// Whether child `k` of the metric tree's root holds a word a search
    /// for `q` is certain to reach.
    pub closed spec fn qualifying_suggestion(self, q: Seq<char>, k: int) -> bool {
        self.bktree.qualifying_child(q, k)
    }

    /// The word under child `k` of the metric tree's root.
    pub closed spec fn suggestion_child_word(self, k: int) -> Seq<char> {
        self.bktree.root_child_word(k)
    }

    /// Whether any class has an index entry for `q`.
    pub open spec fn word_exists(self, q: Seq<char>) -> bool {
        exists|c: int| 0 <= c < 4 && (#[trigger] self.class_offsets(c, q)) is Some
    }

    /// The per-class record lists a lookup of `q` resolves, class by class;
    /// `None` when any registered sense fails to parse.
    pub open spec fn classes_data(self, q: Seq<char>, c: int) -> Option<Seq<Seq<GloassaryView>>>
        decreases c,
    {
        if c <= 0 {
            Some(Seq::empty())
        } else {
            match self.classes_data(q, c - 1) {
                Some(ds) => match self.class_offsets(c - 1, q) {
                    Some(offs) => match records_for(self.buffers()[c - 1], offs) {
                        Some(rs) => Some(ds.push(rs)),
                        None => None,
                    },
                    None => Some(ds.push(Seq::empty())),
                },
                None => None,
            }
        }
    }

    /// What a lookup of `q` yields, at the level of views: the query as
    /// lemma together with all four class record lists, or nothing when no
    /// class lists the word or some sense is unreadable.
    pub open spec fn get_post(
        self,
        q: Seq<char>,
        r: Option<(Seq<char>, Seq<Seq<GloassaryView>>)>,
    ) -> bool {
        match r {
            Some(w) => self.word_exists(q) && w.0 == q && self.classes_data(q, 4) == Some(w.1),
            None => !self.word_exists(q) || self.classes_data(q, 4) is None,
        }
    }

    /// Loads the database from the four class data buffers and the four
    /// index listings, in class order. Any malformed index line aborts the
    /// load, so a partially loaded snapshot never escapes.
    pub fn load(data: Vec<Vec<u8>>, index_texts: Vec<String>) -> (r: Option<WordNetDatabase>)
        ensures
            r is Some <==> (data@.len() == 4 && index_texts@.len() == 4 && (forall|c: int|
                0 <= c < 4 ==> class_entries((#[trigger] index_texts@[c])@) is Some)),
            match r {
                Some(db) => {
                    &&& db.buffers() == data.deep_view()
                    &&& forall|c: int|
                        0 <= c < 4 ==> Some(#[trigger] db.index_entries(c)) == class_entries(
                            index_texts@[c]@,
                        )
                    &&& forall|w: Seq<char>|
                        #[trigger] db.has_headword(w) <==> (exists|c: int|
                            0 <= c < 4 && class_lemma_in((#[trigger] index_texts@[c])@, w))
                    &&& forall|w: Seq<char>|
                        #[trigger] db.suggestion_words().contains(w) <==> db.has_headword(w)
                    &&& forall|i: int, j: int|
                        0 <= i < j < db.suggestion_words().len() ==> (
                        #[trigger] db.suggestion_words()[i]) != (#[trigger] db.suggestion_words()[j])
                },
                None => true,
            },
    {
        if data.len() != 4 || index_texts.len() != 4 {
            return None;
        }
        let mut trie = WordTrie::new();
        let mut bk = BKTree::new();
        let mut index: Vec<LexIndex> = Vec::new();
        proof {
            assert forall|w: Seq<char>| #[trigger] trie.contains_word(w) <==> bk.words().contains(
                w,
            ) by {
                assert(!trie.contains_word(w));
                if bk.words().contains(w) {
                    let t = choose|t: int| 0 <= t < bk.words().len() && bk.words()[t] == w;
                }
            }
        }
        let mut c: usize = 0;
        while c < 4
            invariant
                c <= 4,
                index@.len() == c as int,
                index_texts@.len() == 4,
                forall|cc: int|
                    0 <= cc < c as int ==> Some((#[trigger] index@[cc])@) == class_entries(
                        index_texts@[cc]@,
                    ),
                forall|w: Seq<char>|
                    #[trigger] trie.contains_word(w) <==> (exists|cc: int|
                        0 <= cc < c as int && class_lemma_in((#[trigger] index_texts@[cc])@, w)),
                forall|w: Seq<char>| #[trigger] trie.contains_word(w) <==> bk.words().contains(w),
                forall|i: int, j: int|
                    0 <= i < j < bk.words().len() ==> (#[trigger] bk.words()[i]) != (
                    #[trigger] bk.words()[j]),
            decreases 4 - c,
        {
            let ghost pre_trie = trie;
            match load_class(&index_texts[c], &mut trie, &mut bk) {
                Some(ix) => {
                    proof {
                        assert forall|w: Seq<char>| #[trigger] trie.contains_word(w) <==> (
                        exists|cc: int|
                            0 <= cc < c + 1 && class_lemma_in(
                                (#[trigger] index_texts@[cc])@,
                                w,
                            )) by {
                            if trie.contains_word(w) {
                                if pre_trie.contains_word(w) {
                                    let cc = choose|cc: int|
                                        0 <= cc < c as int && class_lemma_in(
                                            (#[trigger] index_texts@[cc])@,
                                            w,
                                        );
                                    assert(class_lemma_in(index_texts@[cc]@, w));
                                } else {
                                    assert(class_lemma_in(index_texts@[c as int]@, w));
                                }
                            }
                            if exists|cc: int|
                                0 <= cc < c + 1 && class_lemma_in(
                                    (#[trigger] index_texts@[cc])@,
                                    w,
                                ) {
                                let cc = choose|cc: int|
                                    0 <= cc < c + 1 && class_lemma_in(
                                        (#[trigger] index_texts@[cc])@,
                                        w,
                                    );
                                if cc < c as int {
                                    assert(pre_trie.contains_word(w));
                                } else {
                                    assert(lemma_in(ix@, w));
                                }
                            }
                        }
                    }
                    index.push(ix);
                },
                None => {
                    proof {
                        assert(class_entries(index_texts@[c as int]@) is None);
                    }
                    return None;
                },
            }
            c = c + 1;
        }
        let db = WordNetDatabase { database: data, word_trie: trie, bktree: bk, index };
        proof {
            assert(db.buffers() == db.database.deep_view());
            assert forall|cc: int| 0 <= cc < 4 implies class_entries(
                (#[trigger] index_texts@[cc])@,
            ) is Some by {
                assert(Some(db.index@[cc]@) == class_entries(index_texts@[cc]@));
            }
        }
        Some(db)
    }

    /// Low-level access: parses the record of word class `db` that starts at
    /// byte `offset`. A class out of range or an unreadable record yields
    /// nothing.
    pub fn get_by_offset(&self, db: usize, offset: usize) -> (r: Option<Gloassary>)
        ensures
            match r {
                Some(g) => db < 4 && spec_parse_record(self.buffers()[db as int], offset as int)
                    == Some((g@.synonyms, g@.meanings, g@.examples)),
                None => db >= 4 || spec_parse_record(self.buffers()[db as int], offset as int)
                    is None,
            },
    {
        proof {
            use_type_invariant(self);
        }
        if db >= 4 {
            return None;
        }
        proof {
            assert(self.buffers()[db as int] =~= self.database@[db as int]@);
        }
        parse_record(&self.database[db], offset)
    }

    /// Looks `query` up across all four word classes. Yields nothing when no
    /// class lists it, and also when any of its registered senses cannot be
    /// parsed, so that corrupt records degrade a single lookup only.
    pub fn get(&self, query: &str) -> (r: Option<Word>)
        ensures
            self.get_post(
                query@,
                match r {
                    Some(w) => Some((w.lemma@, w.data.deep_view())),
                    None => None,
                },
            ),
            r matches Some(w) ==> w.data@.len() == 4,
    {
        proof {
            use_type_invariant(self);
        }
        let q = query.to_owned();
        let mut data: Vec<Vec<Gloassary>> = Vec::new();
        let mut word_exists = false;
        let mut c: usize = 0;
        proof {
            assert(data.deep_view() =~= Seq::<Seq<GloassaryView>>::empty());
        }
        while c < 4
            invariant
                self.database@.len() == 4,
                self.index@.len() == 4,
                q@ == query@,
                c <= 4,
                data@.len() == c as int,
                self.classes_data(q@, c as int) == Some(data.deep_view()),
                word_exists <==> (exists|cc: int|
                    0 <= cc < c as int && (#[trigger] self.class_offsets(cc, q@)) is Some),
            decreases 4 - c,
        {
            let ghost pre_dv = data.deep_view();
            match self.index[c].get(&q) {
                Some(offs) => {
                    word_exists = true;
                    let mut recs: Vec<Gloassary> = Vec::new();
                    let mut t: usize = 0;
                    let m = offs.len();
                    proof {
                        assert(recs.deep_view() =~= Seq::<GloassaryView>::empty());
                        assert(offs@.subrange(0, 0) =~= Seq::<usize>::empty());
                    }
                    while t < m
                        invariant
                            t <= m,
                            m == offs@.len(),
                            self.database@.len() == 4,
                            self.index@.len() == 4,
                            q@ == query@,
                            c < 4,
                            self.classes_data(q@, c as int) == Some(pre_dv),
                            self.class_offsets(c as int, q@) == Some(offs@),
                            records_for(self.buffers()[c as int], offs@.subrange(0, t as int))
                                == Some(recs.deep_view()),
                        decreases m - t,
                    {
                        let ghost pre_recs = recs.deep_view();
                        proof {
                            assert(self.buffers()[c as int] =~= self.database@[c as int]@);
                        }
                        match parse_record(&self.database[c], offs[t]) {
                            Some(g) => {
                                recs.push(g);
                                proof {
                                    assert(offs@.subrange(0, t + 1).drop_last() =~= offs@.subrange(
                                        0,
                                        t as int,
                                    ));
                                    assert(offs@.subrange(0, t + 1).last() == offs@[t as int]);
                                    assert(recs.deep_view() =~~= pre_recs.push(g@));
                                    assert(spec_parse_record(
                                        self.buffers()[c as int],
                                        offs@[t as int] as int,
                                    ) == Some((g@.synonyms, g@.meanings, g@.examples)));
                                    assert(records_for(
                                        self.buffers()[c as int],
                                        offs@.subrange(0, t + 1),
                                    ) == Some(recs.deep_view()));
                                }
                            },
                            None => {
                                proof {
                                    assert(offs@.subrange(0, t + 1).drop_last() =~= offs@.subrange(
                                        0,
                                        t as int,
                                    ));
                                    assert(offs@.subrange(0, t + 1).last() == offs@[t as int]);
                                    assert(records_for(
                                        self.buffers()[c as int],
                                        offs@.subrange(0, t + 1),
                                    ) is None);
                                    lemma_records_prefix_none(
                                        self.buffers()[c as int],
                                        offs@,
                                        t + 1,
                                    );
                                    assert(self.classes_data(q@, c + 1) is None);
                                    lemma_classes_none(*self, q@, c + 1, 4);
                                }
                                return None;
                            },
                        }
                        t = t + 1;
                    }
                    proof {
                        assert(offs@.subrange(0, m as int) =~= offs@);
                    }
                    data.push(recs);
                    proof {
                        assert(data.deep_view() =~~= pre_dv.push(recs.deep_view()));
                        assert(self.classes_data(q@, c + 1) == Some(data.deep_view()));
                    }
                },
                None => {
                    let empty_recs: Vec<Gloassary> = Vec::new();
                    data.push(empty_recs);
                    proof {
                        assert(data.deep_view() =~~= pre_dv.push(Seq::<GloassaryView>::empty()));
                        assert(self.classes_data(q@, c + 1) == Some(data.deep_view()));
                        assert forall|cc: int|
                            0 <= cc < c + 1 && (#[trigger] self.class_offsets(cc, q@))
                                is Some implies cc < c as int by {}
                    }
                },
            }
            c = c + 1;
        }
        if word_exists {
            proof {
                assert(self.word_exists(q@));
            }
            Some(Word { lemma: q, data })
        } else {
            None
        }
    }

    /// Typo-tolerant suggestions: up to eight stored headwords within the
    /// query's error budget, closest first, never the query itself, and,
    /// when no headword was stored twice, no suggestion repeated either.
    pub fn suggest(&self, query: &str) -> (r: Vec<String>)
        ensures
            r@.len() <= 8,
            forall|t: int|
                0 <= t < r@.len() ==> self.suggestion_words().contains((#[trigger] r@[t])@),
            forall|t: int|
                0 <= t < r@.len() ==> 1 <= edit_distance((#[trigger] r@[t])@, query@)
                    && edit_distance(r@[t]@, query@) <= error_budget(query@),
            forall|t: int| 0 <= t < r@.len() ==> (#[trigger] r@[t])@ != query@,
            forall|t1: int, t2: int|
                0 <= t1 <= t2 < r@.len() ==> edit_distance((#[trigger] r@[t1])@, query@)
                    <= edit_distance((#[trigger] r@[t2])@, query@),
            self.has_close_suggestion(query@) ==> r@.len() >= 1,
            forall|k: int|
                #[trigger] self.qualifying_suggestion(query@, k) && k + 1 <= 8 && k + 2
                    <= error_budget(query@) * 4096 && error_budget(query@) * 16384 <= usize::MAX
                    as nat ==> exists|t: int|
                    0 <= t < r@.len() && (#[trigger] r@[t])@ == self.suggestion_child_word(k),
            (forall|i: int, j: int|
                0 <= i < j < self.suggestion_words().len() ==> (
                #[trigger] self.suggestion_words()[i]) != (#[trigger] self.suggestion_words()[j]))
                ==> forall|t1: int, t2: int|
                0 <= t1 < t2 < r@.len() ==> (#[trigger] r@[t1])@ != (#[trigger] r@[t2])@,
    {
        let r = self.bktree.find(query, 8);
        proof {
            if forall|i: int, j: int|
                0 <= i < j < self.suggestion_words().len() ==> (
                #[trigger] self.suggestion_words()[i]) != (#[trigger] self.suggestion_words()[j]) {
                assert forall|i: int, j: int|
                    0 <= i < j < self.bktree.words().len() implies (
                #[trigger] self.bktree.words()[i]) != (#[trigger] self.bktree.words()[j]) by {
                    assert(self.suggestion_words()[i] == self.bktree.words()[i]);
                    assert(self.suggestion_words()[j] == self.bktree.words()[j]);
                }
            }
        }
        r
    }

    /// Autocomplete: up to eight known headwords that extend the prefix; the
    /// prefix itself comes first when it is a stored headword, and whenever
    /// fewer than eight come back, every matching headword is among them.
    pub fn suggest_search(&self, query: &str) -> (r: Vec<String>)
        ensures
            r@.len() <= 8,
            forall|t: int|
                0 <= t < r@.len() ==> self.has_headword((#[trigger] r@[t])@)
                    && query@.is_prefix_of(r@[t]@),
            !self.headword_prefix(query@) ==> r@.len() == 0,
            self.has_headword(query@) ==> r@.len() >= 1 && r@[0]@ == query@,
            (exists|v: Seq<char>| #[trigger] self.has_headword(v) && query@.is_prefix_of(v))
                ==> r@.len() >= 1,
            forall|t1: int, t2: int|
                0 <= t1 < t2 < r@.len() ==> (#[trigger] r@[t1])@ != (#[trigger] r@[t2])@,
            r@.len() < 8 ==> forall|v: Seq<char>|
                #[trigger] self.has_headword(v) && query@.is_prefix_of(v) ==> exists|t: int|
                    0 <= t < r@.len() && (#[trigger] r@[t])@ == v,
    {
        self.word_trie.prefix_search(query, 8)
    }
}

proof fn lemma_classes_none(db: WordNetDatabase, q: Seq<char>, j: int, k: int)
    requires
        db.classes_data(q, j) is None,
        j <= k,
    ensures
        db.classes_data(q, k) is None,
    decreases k - j,
{
    if j < k {
        lemma_classes_none(db, q, j, k - 1);
    }
}

/// Offset stability: a lookup's outcome is a function of the loaded corpus
/// and the query alone, so for a fixed database repeated calls of `get`
/// yield byte-identical record text.
pub proof fn lemma_get_stable(
    db: WordNetDatabase,
    q: Seq<char>,
    r1: Option<(Seq<char>, Seq<Seq<GloassaryView>>)>,
    r2: Option<(Seq<char>, Seq<Seq<GloassaryView>>)>,
)
    requires
        db.get_post(q, r1),
        db.get_post(q, r2),
    ensures
        r1 == r2,
{
}

impl crate::database::Database<Word> for WordNetDatabase {
    fn get(&self, query: &str) -> Option<Word> {
        WordNetDatabase::get(self, query)
    }

    fn suggest(&self, query: &str) -> Vec<String> {
        WordNetDatabase::suggest(self, query)
    }

    fn suggest_search(&self, query: &str) -> Vec<String> {
        WordNetDatabase::suggest_search(self, query)
    }
}

} // verus!
