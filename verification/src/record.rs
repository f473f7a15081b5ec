//! The record parser: extracts one sense record from a word-class data
//! buffer at a given byte offset.
//!
//! A record line holds a 17-byte header whose last two bytes before the
//! trailing space are a two-digit hexadecimal synonym count, then twice that
//! many space-delimited tokens (lemmas alternating with lexical ids), then a
//! `|`-delimited gloss running to the end of the line. The gloss splits at
//! the first `; "` marker into the meanings text and the usage examples.

use vstd::prelude::*;
use vstd::utf8::*;

verus! {

/// Decimal and lowercase-hexadecimal digit value.
pub open spec fn hex_val(b: u8) -> Option<u8> {
    if 48 <= b <= 57 {
        Some((b - 48) as u8)
    } else if 97 <= b <= 102 {
        Some((b - 87) as u8)
    } else {
        None
    }
}

pub open spec fn is_ws(b: u8) -> bool {
    b == 32 || b == 9 || b == 10 || b == 13
}

/// Position just after the `n`-th space at or after `from`.
pub open spec fn after_n_spaces(buf: Seq<u8>, from: int, n: int) -> Option<int>
    decreases buf.len() - from,
{
    if n <= 0 {
        Some(from)
    } else if from < 0 || from >= buf.len() {
        None
    } else {
        after_n_spaces(buf, from + 1, if buf[from] == 32 {
            n - 1
        } else {
            n
        })
    }
}

/// First position at or after `from` holding byte `b`.
pub open spec fn find_byte(buf: Seq<u8>, from: int, b: u8) -> Option<int>
    decreases buf.len() - from,
{
    if from < 0 || from >= buf.len() {
        None
    } else if buf[from] == b {
        Some(from)
    } else {
        find_byte(buf, from + 1, b)
    }
}

/// Scans `[ge, end)` for the first `; "` marker (a semicolon with a double
/// quote two bytes later) and yields the position just before it; `me`
/// carries the value found so far and starts at `gs`, which also means
/// "nothing found yet".
pub open spec fn meanings_end_scan(buf: Seq<u8>, ge: int, end: int, me: int, gs: int) -> int
    decreases end - ge,
{
    if ge >= end {
        me
    } else {
        let me2 = if buf[ge] == 59 && buf[ge + 2] == 34 && me == gs {
            ge - 1
        } else {
            me
        };
        meanings_end_scan(buf, ge + 1, end, me2, gs)
    }
}

pub open spec fn trim_front(s: Seq<u8>) -> Seq<u8>
    decreases s.len(),
{
    if s.len() > 0 && is_ws(s[0]) {
        trim_front(s.drop_first())
    } else {
        s
    }
}

pub open spec fn trim_back(s: Seq<u8>) -> Seq<u8>
    decreases s.len(),
{
    if s.len() > 0 && is_ws(s.last()) {
        trim_back(s.drop_last())
    } else {
        s
    }
}

/// ASCII-whitespace trim on both ends.
pub open spec fn trim_bytes(s: Seq<u8>) -> Seq<u8> {
    trim_back(trim_front(s))
}

/// What parsing a record at `off` yields: the trimmed synonym span, meanings
/// span and examples span, or nothing when the buffer does not hold a
/// well-formed record there. Without a `; "` marker the entire gloss is the
/// meanings text and there are no examples. A span that is not valid UTF-8
/// makes the whole record unavailable.
pub open spec fn spec_parse_record(buf: Seq<u8>, off: int) -> Option<(Seq<u8>, Seq<u8>, Seq<u8>)> {
    if !(0 <= off && off + 17 <= buf.len()) {
        None
    } else {
        match (hex_val(buf[off + 14]), hex_val(buf[off + 15])) {
            (Some(h), Some(l)) => {
                let cnt2 = 2 * (16 * (h as int) + (l as int));
                match after_n_spaces(buf, off + 17, cnt2) {
                    Some(le) => match find_byte(buf, le - 1, 124) {
                        Some(pipe) => {
                            let gs = pipe + 1;
                            match find_byte(buf, gs + 1, 10) {
                                Some(nl) => {
                                    let end = nl - 1;
                                    let me0 = meanings_end_scan(buf, gs, end, gs, gs);
                                    let syn = trim_bytes(buf.subrange(off + 17, le));
                                    let mean = if me0 == gs {
                                        trim_bytes(buf.subrange(gs, end + 1))
                                    } else {
                                        trim_bytes(buf.subrange(gs, me0 + 1))
                                    };
                                    let ex: Seq<u8> = if me0 == gs {
                                        Seq::empty()
                                    } else {
                                        trim_bytes(buf.subrange(me0 + 1, end + 1))
                                    };
                                    if valid_utf8(syn) && valid_utf8(mean) && valid_utf8(ex) {
                                        Some((syn, mean, ex))
                                    } else {
                                        None
                                    }
                                },
                                None => None,
                            }
                        },
                        None => None,
                    },
                    None => None,
                }
            },
            _ => None,
        }
    }
}

/// One sense of a headword: the raw synonym token span, the meanings text
/// and the raw usage-example span, all as byte strings out of the corpus.
pub struct Gloassary {
    synonyms: Vec<u8>,
    meanings: Vec<u8>,
    examples: Vec<u8>,
}

pub struct GloassaryView {
    pub synonyms: Seq<u8>,
    pub meanings: Seq<u8>,
    pub examples: Seq<u8>,
}

impl View for Gloassary {
    type V = GloassaryView;

    closed spec fn view(&self) -> GloassaryView {
        GloassaryView {
            synonyms: self.synonyms@,
            meanings: self.meanings@,
            examples: self.examples@,
        }
    }
}

impl DeepView for Gloassary {
    type V = GloassaryView;

    open spec fn deep_view(&self) -> GloassaryView {
        self.view()
    }
}

impl Gloassary {
    pub fn new(synonyms: Vec<u8>, meanings: Vec<u8>, examples: Vec<u8>) -> (g: Gloassary)
        ensures
            g@.synonyms == synonyms@,
            g@.meanings == meanings@,
            g@.examples == examples@,
    {
        Gloassary { meanings, synonyms, examples }
    }

    pub fn meanings(&self) -> (r: &Vec<u8>)
        ensures
            r@ == self@.meanings,
    {
        &self.meanings
    }

    pub fn synonyms(&self) -> (r: &Vec<u8>)
        ensures
            r@ == self@.synonyms,
    {
        &self.synonyms
    }

    pub fn examples(&self) -> (r: &Vec<u8>)
        ensures
            r@ == self@.examples,
    {
        &self.examples
    }
}

/// Tokens of `s` split at spaces, keeping only every other one: the lemma
/// names, skipping the lexical ids between them. `start` is where the
/// current token began and `skip` whether it is an id.
pub open spec fn alt_tokens(s: Seq<u8>, i: int, start: int, skip: bool) -> Seq<Seq<u8>>
    decreases s.len() - i,
{
    if i < 0 || i >= s.len() {
        Seq::empty()
    } else if s[i] == 32 {
        if !skip {
            seq![s.subrange(start, i)] + alt_tokens(s, i + 1, i + 1, true)
        } else {
            alt_tokens(s, i + 1, i + 1, false)
        }
    } else {
        alt_tokens(s, i + 1, start, skip)
    }
}

/// The synonym lemmas found in a raw synonym token span.
pub open spec fn spec_synonyms_list(s: Seq<u8>) -> Seq<Seq<u8>> {
    alt_tokens(s, 0, 0, false)
}

/// Usage examples cut out of a raw examples span: one item per `;` separator
/// (each item starts three bytes after its separator, inside the quotes) and
/// one final item running to the last byte exclusive.
pub open spec fn example_items(s: Seq<u8>, i: int, ls: int) -> Seq<Seq<u8>>
    decreases s.len() - i,
{
    if i < 0 || i >= s.len() {
        Seq::empty()
    } else {
        let ls2 = if s[i] == 59 {
            i
        } else {
            ls
        };
        let emit1: Seq<Seq<u8>> = if s[i] == 59 {
            seq![
                s.subrange(
                    if ls + 3 <= i - 1 {
                        ls + 3
                    } else {
                        i - 1
                    },
                    i - 1,
                ),
            ]
        } else {
            Seq::empty()
        };
        let emit2: Seq<Seq<u8>> = if i == s.len() - 1 {
            seq![
                s.subrange(
                    if ls2 + 3 <= i {
                        ls2 + 3
                    } else {
                        i
                    },
                    i,
                ),
            ]
        } else {
            Seq::empty()
        };
        emit1 + emit2 + example_items(s, i + 1, ls2)
    }
}

pub open spec fn spec_examples_list(s: Seq<u8>) -> Seq<Seq<u8>> {
    example_items(s, 2, 0)
}

/// Copies `buf[a..b]`.
fn subrange_vec(buf: &Vec<u8>, a: usize, b: usize) -> (r: Vec<u8>)
    requires
        a <= b <= buf@.len(),
    ensures
        r@ == buf@.subrange(a as int, b as int),
{
    let mut out: Vec<u8> = Vec::new();
    let mut k = a;
    while k < b
        invariant
            a <= k <= b <= buf@.len(),
            out@ == buf@.subrange(a as int, k as int),
        decreases b - k,
    {
        out.push(buf[k]);
        proof {
            assert(out@ =~= buf@.subrange(a as int, k + 1));
        }
        k = k + 1;
    }
    proof {
        assert(out@ =~= buf@.subrange(a as int, b as int));
    }
    out
}

impl Gloassary {
    /// The synonym lemmas of this record.
    pub fn synonyms_list(&self) -> (r: Vec<Vec<u8>>)
        ensures
            r.deep_view() == spec_synonyms_list(self@.synonyms),
    {
        let s = &self.synonyms;
        let mut out: Vec<Vec<u8>> = Vec::new();
        let mut start: usize = 0;
        let mut skip = false;
        let mut i: usize = 0;
        while i < s.len()
            invariant
                start <= i <= s@.len(),
                spec_synonyms_list(s@) == out.deep_view() + alt_tokens(
                    s@,
                    i as int,
                    start as int,
                    skip,
                ),
            decreases s@.len() - i,
        {
            let ghost dv0 = out.deep_view();
            let ghost rest0 = alt_tokens(s@, i as int, start as int, skip);
            if s[i] == 32 {
                if !skip {
                    let tok = subrange_vec(s, start, i);
                    out.push(tok);
                    proof {
                        assert(out.deep_view() =~~= dv0.push(s@.subrange(start as int, i as int)));
                        assert(rest0 == seq![s@.subrange(start as int, i as int)] + alt_tokens(
                            s@,
                            i + 1,
                            i + 1,
                            true,
                        ));
                        assert(dv0 + rest0 =~~= out.deep_view() + alt_tokens(s@, i + 1, i + 1, true));
                    }
                    skip = true;
                } else {
                    skip = false;
                }
                start = i + 1;
            }
            i = i + 1;
        }
        proof {
            assert(alt_tokens(s@, i as int, start as int, skip) =~= Seq::<Seq<u8>>::empty());
            assert(spec_synonyms_list(s@) =~= out.deep_view());
        }
        out
    }

    /// The usage examples of this record, one string per quoted example.
    pub fn examples_list(&self) -> (r: Vec<Vec<u8>>)
        ensures
            r.deep_view() == spec_examples_list(self@.examples),
    {
        let s = &self.examples;
        let mut out: Vec<Vec<u8>> = Vec::new();
        let mut ls: usize = 0;
        let mut i: usize = 2;
        while i < s.len()
            invariant
                2 <= i,
                ls < i,
                ls <= s@.len(),
                spec_examples_list(s@) == out.deep_view() + example_items(s@, i as int, ls as int),
            decreases s@.len() - i,
        {
            let ghost dv0 = out.deep_view();
            let ghost rest0 = example_items(s@, i as int, ls as int);
            let ghost ls_in = ls as int;
            if s[i] == 59 {
                let a = if (i - 1) - ls >= 3 {
                    ls + 3
                } else {
                    i - 1
                };
                let tok = subrange_vec(s, a, i - 1);
                out.push(tok);
                ls = i;
            }
            if i == s.len() - 1 {
                let a2 = if i - ls >= 3 {
                    ls + 3
                } else {
                    i
                };
                let tok2 = subrange_vec(s, a2, i);
                out.push(tok2);
            }
            proof {
                let ls2 = if s@[i as int] == 59 {
                    i as int
                } else {
                    ls_in
                };
                let emit1: Seq<Seq<u8>> = if s@[i as int] == 59 {
                    seq![
                        s@.subrange(
                            if ls_in + 3 <= i - 1 {
                                ls_in + 3
                            } else {
                                i - 1
                            },
                            i - 1,
                        ),
                    ]
                } else {
                    Seq::empty()
                };
                let emit2: Seq<Seq<u8>> = if i as int == s@.len() - 1 {
                    seq![
                        s@.subrange(
                            if ls2 + 3 <= i as int {
                                ls2 + 3
                            } else {
                                i as int
                            },
                            i as int,
                        ),
                    ]
                } else {
                    Seq::empty()
                };
                assert(rest0 == emit1 + emit2 + example_items(s@, i + 1, ls2));
                assert(out.deep_view() =~~= dv0 + emit1 + emit2);
                assert(dv0 + rest0 =~~= out.deep_view() + example_items(s@, i + 1, ls2));
            }
            i = i + 1;
        }
        proof {
            assert(example_items(s@, i as int, ls as int) =~= Seq::<Seq<u8>>::empty());
            assert(spec_examples_list(s@) =~= out.deep_view());
        }
        out
    }
}

/// A lookup result: the headword and, for each word class, the records of
/// its senses there.
pub struct Word {
    pub lemma: String,
    pub data: Vec<Vec<Gloassary>>,
}

fn hex_digit(b: u8) -> (r: Option<u8>)
    ensures
        r == hex_val(b),
{
    if 48 <= b && b <= 57 {
        Some(b - 48)
    } else if 97 <= b && b <= 102 {
        Some(b - 87)
    } else {
        None
    }
}

fn is_ws_byte(c: u8) -> (r: bool)
    ensures
        r == is_ws(c),
{
    c == 32 || c == 9 || c == 10 || c == 13
}

/// Copies `buf[a..b]` with surrounding ASCII whitespace removed.
fn extract_trimmed(buf: &Vec<u8>, a: usize, b: usize) -> (r: Vec<u8>)
    requires
        a <= b <= buf@.len(),
    ensures
        r@ == trim_bytes(buf@.subrange(a as int, b as int)),
{
    let ghost a0 = a as int;
    let ghost b0 = b as int;
    let mut a = a;
    let mut b = b;
    while a < b && is_ws_byte(buf[a])
        invariant
            a0 <= a as int <= b as int <= buf@.len(),
            b as int == b0,
            trim_front(buf@.subrange(a0, b0)) == trim_front(buf@.subrange(a as int, b0)),
        decreases b - a,
    {
        proof {
            assert(buf@.subrange(a as int, b0).drop_first() =~= buf@.subrange(a + 1, b0));
        }
        a = a + 1;
    }
    proof {
        assert(trim_front(buf@.subrange(a as int, b0)) == buf@.subrange(a as int, b0));
    }
    while b > a && is_ws_byte(buf[b - 1])
        invariant
            a0 <= a as int <= b as int <= b0 <= buf@.len(),
            trim_front(buf@.subrange(a0, b0)) == buf@.subrange(a as int, b0),
            trim_back(buf@.subrange(a as int, b0)) == trim_back(buf@.subrange(a as int, b as int)),
        decreases b,
    {
        proof {
            assert(buf@.subrange(a as int, b as int).drop_last() =~= buf@.subrange(
                a as int,
                b - 1,
            ));
        }
        b = b - 1;
    }
    proof {
        assert(trim_back(buf@.subrange(a as int, b as int)) == buf@.subrange(a as int, b as int));
    }
    let mut out: Vec<u8> = Vec::new();
    let mut k = a;
    while k < b
        invariant
            a <= k <= b <= buf@.len(),
            out@ == buf@.subrange(a as int, k as int),
        decreases b - k,
    {
        out.push(buf[k]);
        proof {
            assert(out@ =~= buf@.subrange(a as int, k + 1));
        }
        k = k + 1;
    }
    proof {
        assert(out@ =~= buf@.subrange(a as int, b as int));
    }
    out
}

/// Scans for byte `target` from position `from` on.
fn find_byte_from(buf: &Vec<u8>, from: usize, target: u8) -> (r: Option<usize>)
    ensures
        match r {
            Some(p) => find_byte(buf@, from as int, target) == Some(p as int) && from <= p
                < buf@.len(),
            None => find_byte(buf@, from as int, target) is None,
        },
{
    let mut pos = from;
    while pos < buf.len() && buf[pos] != target
        invariant
            from <= pos,
            pos <= buf@.len() || pos == from,
            find_byte(buf@, from as int, target) == find_byte(buf@, pos as int, target),
        decreases buf@.len() - pos,
    {
        pos = pos + 1;
    }
    if pos < buf.len() {
        Some(pos)
    } else {
        None
    }
}

/// Parses the record that starts at byte `offset` of `buf`, yielding its
/// three trimmed spans, or `None` when the bytes there are not a well-formed
/// record.
pub fn parse_record(buf: &Vec<u8>, offset: usize) -> (r: Option<Gloassary>)
    ensures
        match r {
            Some(g) => spec_parse_record(buf@, offset as int) == Some(
                (g@.synonyms, g@.meanings, g@.examples),
            ),
            None => spec_parse_record(buf@, offset as int) is None,
        },
{
    if buf.len() < 17 || offset > buf.len() - 17 {
        return None;
    }
    // two-digit hexadecimal sense count in the fixed header
    let h = match hex_digit(buf[offset + 14]) {
        Some(v) => v,
        None => {
            return None;
        },
    };
    let l = match hex_digit(buf[offset + 15]) {
        Some(v) => v,
        None => {
            return None;
        },
    };
    // each lemma token comes with a lexical id, so twice the count of spaces
    let cnt2: usize = (16 * (h as usize) + (l as usize)) * 2;

    let mut pos = offset + 17;
    let mut rem = cnt2;
    while rem > 0
        invariant
            offset + 17 <= pos,
            pos <= buf@.len() || rem == 0,
            after_n_spaces(buf@, offset + 17, cnt2 as int) == after_n_spaces(
                buf@,
                pos as int,
                rem as int,
            ),
        ensures
            rem == 0 || pos >= buf@.len(),
            offset + 17 <= pos,
            after_n_spaces(buf@, offset + 17, cnt2 as int) == after_n_spaces(
                buf@,
                pos as int,
                rem as int,
            ),
        decreases rem, buf@.len() - pos,
    {
        if pos >= buf.len() {
            proof {
                assert(after_n_spaces(buf@, pos as int, rem as int) is None);
            }
            break ;
        }
        if buf[pos] == 32 {
            rem = rem - 1;
        }
        pos = pos + 1;
    }
    if rem > 0 {
        proof {
            assert(after_n_spaces(buf@, pos as int, rem as int) is None);
        }
        return None;
    }
    let lemma_end = pos;
    proof {
        assert(after_n_spaces(buf@, pos as int, 0int) == Some(pos as int));
    }

    // the gloss section starts right after the first pipe
    let pipe = match find_byte_from(buf, lemma_end - 1, 124) {
        Some(p) => p,
        None => {
            return None;
        },
    };
    let gs = pipe + 1;
    if gs >= buf.len() {
        proof {
            assert(find_byte(buf@, gs + 1, 10) is None);
        }
        return None;
    }
    let nl = match find_byte_from(buf, gs + 1, 10) {
        Some(p) => p,
        None => {
            return None;
        },
    };
    let end = nl - 1;

    // look for the `; "` marker separating meanings from usage examples
    let mut ge = gs;
    let mut me = gs;
    while ge < end
        invariant
            gs <= ge,
            ge <= end || ge == gs,
            gs + 1 <= nl < buf@.len(),
            end == nl - 1,
            me <= end,
            gs >= 1,
            me >= gs - 1,
            meanings_end_scan(buf@, gs as int, end as int, gs as int, gs as int)
                == meanings_end_scan(buf@, ge as int, end as int, me as int, gs as int),
        decreases end - ge,
    {
        if buf[ge] == 59 && buf[ge + 2] == 34 && me == gs {
            me = ge - 1;
        }
        ge = ge + 1;
    }
    proof {
        assert(meanings_end_scan(buf@, ge as int, end as int, me as int, gs as int) == me as int);
    }

    let synonyms = extract_trimmed(buf, offset + 17, lemma_end);
    let meanings: Vec<u8>;
    let examples: Vec<u8>;
    if me == gs {
        // no `; "` marker: the entire gloss is the meanings text
        meanings = extract_trimmed(buf, gs, end + 1);
        examples = Vec::new();
    } else {
        meanings = extract_trimmed(buf, gs, me + 1);
        examples = extract_trimmed(buf, me + 1, end + 1);
    }
    if !is_valid_utf8(&synonyms) || !is_valid_utf8(&meanings) || !is_valid_utf8(&examples) {
        return None;
    }
    Some(Gloassary { synonyms, meanings, examples })
}

/// Checks that `s` is a valid UTF-8 encoding: every position starts a
/// well-formed scalar of the right width, neither overlong nor a surrogate.
fn is_valid_utf8(s: &Vec<u8>) -> (r: bool)
    ensures
        r == valid_utf8(s@),
{
    let n = s.len();
    let mut i: usize = 0;
    proof {
        assert(s@.skip(0) =~= s@);
    }
    while i < n
        invariant
            i <= n,
            n == s@.len(),
            valid_utf8(s@) == valid_utf8(s@.skip(i as int)),
        decreases n - i,
    {
        let ghost suf = s@.skip(i as int);
        proof {
            assert(suf.len() == n - i);
            assert(suf[0] == s@[i as int]);
        }
        let b0 = s[i];
        let width: usize;
        if b0 <= 0x7f {
            proof {
                assert(b0 & 0x7F <= 0x7F) by (bit_vector);
                assert(decode_first_codepoint(suf) == (b0 & 0x7F) as u32);
                assert(length_of_first_codepoint(suf) == 1);
            }
            width = 1;
        } else if 0xc0 <= b0 && b0 <= 0xdf {
            if n - i < 2 || !(0x80 <= s[i + 1] && s[i + 1] <= 0xbf) {
                proof {
                    assert(!valid_leading_and_continuation_bytes_first_codepoint(suf));
                }
                return false;
            }
            let c1 = s[i + 1];
            let cp = (((b0 & 0x1F) as u32) << 6u32) | ((c1 & 0x3f) as u32);
            proof {
                assert(suf[1] == s@[i + 1]);
                assert(cp == decode_first_codepoint(suf));
                assert(length_of_first_codepoint(suf) == 2);
                assert((((b0 & 0x1F) as u32) << 6u32) | ((c1 & 0x3f) as u32) <= 0x7FF)
                    by (bit_vector);
            }
            if cp < 0x80 {
                proof {
                    assert(!not_overlong_encoding(decode_first_codepoint(suf), 2));
                }
                return false;
            }
            width = 2;
        } else if 0xe0 <= b0 && b0 <= 0xef {
            if n - i < 3 || !(0x80 <= s[i + 1] && s[i + 1] <= 0xbf) || !(0x80 <= s[i + 2] && s[i
                + 2] <= 0xbf) {
                proof {
                    assert(!valid_leading_and_continuation_bytes_first_codepoint(suf));
                }
                return false;
            }
            let cp = (((b0 & 0x0F) as u32) << 12u32) | (((s[i + 1] & 0x3f) as u32) << 6u32) | ((s[i
                + 2] & 0x3f) as u32);
            proof {
                assert(suf[1] == s@[i + 1]);
                assert(suf[2] == s@[i + 2]);
                assert(cp == decode_first_codepoint(suf));
                assert(length_of_first_codepoint(suf) == 3);
            }
            if cp < 0x800 || (0xD800 <= cp && cp <= 0xDFFF) {
                return false;
            }
            width = 3;
        } else if 0xf0 <= b0 && b0 <= 0xf7 {
            if n - i < 4 || !(0x80 <= s[i + 1] && s[i + 1] <= 0xbf) || !(0x80 <= s[i + 2] && s[i
                + 2] <= 0xbf) || !(0x80 <= s[i + 3] && s[i + 3] <= 0xbf) {
                proof {
                    assert(!valid_leading_and_continuation_bytes_first_codepoint(suf));
                }
                return false;
            }
            let cp = (((b0 & 0x07) as u32) << 18u32) | (((s[i + 1] & 0x3f) as u32) << 12u32) | (((
            s[i + 2] & 0x3f) as u32) << 6u32) | ((s[i + 3] & 0x3f) as u32);
            proof {
                assert(suf[1] == s@[i + 1]);
                assert(suf[2] == s@[i + 2]);
                assert(suf[3] == s@[i + 3]);
                assert(cp == decode_first_codepoint(suf));
                assert(length_of_first_codepoint(suf) == 4);
            }
            if cp < 0x10000 || cp > 0x10ffff {
                return false;
            }
            width = 4;
        } else {
            proof {
                assert(!valid_leading_and_continuation_bytes_first_codepoint(suf));
            }
            return false;
        }
        proof {
            assert(valid_first_scalar(suf));
            assert(length_of_first_scalar(suf) == width as int);
            assert(pop_first_scalar(suf) =~= s@.skip(i + width));
        }
        i = i + width;
    }
    proof {
        assert(s@.skip(n as int).len() == 0);
    }
    true
}

} // verus!
