//! Character-level helpers shared by the index structures and the corpus
//! loader.

use vstd::prelude::*;
use vstd::string::StrSliceExecFns;

verus! {

/// Collects the characters of a string slice into a vector, so that callers
/// can scan them by position.
pub fn chars_of(s: &str) -> (v: Vec<char>)
    ensures
        v@ == s@,
{
    let n = s.unicode_len();
    let mut v: Vec<char> = Vec::new();
    let mut i: usize = 0;
    while i < n
        invariant
            i <= n,
            n == s@.len(),
            v@ == s@.subrange(0, i as int),
        decreases n - i,
    {
        v.push(s.get_char(i));
        proof {
            assert(v@ =~= s@.subrange(0, i + 1));
        }
        i = i + 1;
    }
    proof {
        assert(v@ =~= s@);
    }
    v
}

pub open spec fn is_wsc(c: char) -> bool {
    c == ' ' || c == '\t' || c == '\r' || c == '\n'
}

pub open spec fn is_digit_c(c: char) -> bool {
    48 <= c as u32 <= 57
}

/// First position at or after `from` holding character `c`.
pub open spec fn find_char(s: Seq<char>, from: int, c: char) -> Option<int>
    decreases s.len() - from,
{
    if from < 0 || from >= s.len() {
        None
    } else if s[from] == c {
        Some(from)
    } else {
        find_char(s, from + 1, c)
    }
}

pub open spec fn trim_front_c(s: Seq<char>) -> Seq<char>
    decreases s.len(),
{
    if s.len() > 0 && is_wsc(s[0]) {
        trim_front_c(s.drop_first())
    } else {
        s
    }
}

pub open spec fn trim_back_c(s: Seq<char>) -> Seq<char>
    decreases s.len(),
{
    if s.len() > 0 && is_wsc(s.last()) {
        trim_back_c(s.drop_last())
    } else {
        s
    }
}

/// ASCII-whitespace trim on both ends.
pub open spec fn spec_trim_chars(s: Seq<char>) -> Seq<char> {
    trim_back_c(trim_front_c(s))
}

/// Split at every single space, keeping empty pieces, as the index-file
/// grammar asks.
pub open spec fn split_sp(l: Seq<char>, i: int, start: int) -> Seq<Seq<char>>
    decreases l.len() - i,
{
    if i < 0 {
        Seq::empty()
    } else if i >= l.len() {
        seq![l.subrange(start, l.len() as int)]
    } else if l[i] == ' ' {
        seq![l.subrange(start, i)] + split_sp(l, i + 1, i + 1)
    } else {
        split_sp(l, i + 1, start)
    }
}

pub open spec fn spec_split_spaces(l: Seq<char>) -> Seq<Seq<char>> {
    split_sp(l, 0, 0)
}

/// Numeric value of a digit string, most significant first.
pub open spec fn digits_value(s: Seq<char>) -> int
    decreases s.len(),
{
    if s.len() == 0 {
        0
    } else {
        digits_value(s.drop_last()) * 10 + (s.last() as u32 - 48)
    }
}

/// A decimal `usize`: one or more digits whose value fits.
pub open spec fn spec_parse_usize(s: Seq<char>) -> Option<int> {
    if s.len() >= 1 && (forall|i: int| 0 <= i < s.len() ==> is_digit_c(#[trigger] s[i]))
        && digits_value(s) <= usize::MAX {
        Some(digits_value(s))
    } else {
        None
    }
}

proof fn lemma_digits_value_nonneg(s: Seq<char>)
    requires
        forall|i: int| 0 <= i < s.len() ==> is_digit_c(#[trigger] s[i]),
    ensures
        digits_value(s) >= 0,
    decreases s.len(),
{
    if s.len() > 0 {
        assert forall|i: int| 0 <= i < s.drop_last().len() implies is_digit_c(
            #[trigger] s.drop_last()[i],
        ) by {
            assert(s.drop_last()[i] == s[i]);
        }
        lemma_digits_value_nonneg(s.drop_last());
    }
}

proof fn lemma_digits_value_mono(s: Seq<char>, j: int)
    requires
        0 <= j <= s.len(),
        forall|i: int| 0 <= i < s.len() ==> is_digit_c(#[trigger] s[i]),
    ensures
        digits_value(s.subrange(0, j)) <= digits_value(s),
    decreases s.len() - j,
{
    if j < s.len() {
        lemma_digits_value_mono(s, j + 1);
        let p = s.subrange(0, j + 1);
        assert(p.drop_last() =~= s.subrange(0, j));
        assert(p.last() == s[j]);
        assert forall|i: int| 0 <= i < s.subrange(0, j).len() implies is_digit_c(
            #[trigger] s.subrange(0, j)[i],
        ) by {
            assert(s.subrange(0, j)[i] == s[i]);
        }
        lemma_digits_value_nonneg(s.subrange(0, j));
    } else {
        assert(s.subrange(0, s.len() as int) =~= s);
    }
}

/// Scans for `target` from position `from` on.
pub(crate) fn find_char_from(v: &Vec<char>, from: usize, target: char) -> (r: Option<usize>)
    ensures
        match r {
            Some(p) => find_char(v@, from as int, target) == Some(p as int) && from <= p
                < v@.len(),
            None => find_char(v@, from as int, target) is None,
        },
{
    let mut pos = from;
    while pos < v.len() && v[pos] != target
        invariant
            from <= pos,
            find_char(v@, from as int, target) == find_char(v@, pos as int, target),
        decreases v@.len() - pos,
    {
        pos = pos + 1;
    }
    if pos < v.len() {
        Some(pos)
    } else {
        None
    }
}

fn is_wsc_char(c: char) -> (r: bool)
    ensures
        r == is_wsc(c),
{
    c == ' ' || c == '\t' || c == '\r' || c == '\n'
}

/// Narrows `[a, b)` to the positions left after trimming ASCII whitespace.
pub(crate) fn trim_range(v: &Vec<char>, a: usize, b: usize) -> (r: (usize, usize))
    requires
        a <= b <= v@.len(),
    ensures
        a <= r.0 <= r.1 <= b,
        spec_trim_chars(v@.subrange(a as int, b as int)) == v@.subrange(r.0 as int, r.1 as int),
{
    let ghost a0 = a as int;
    let ghost b0 = b as int;
    let mut a = a;
    let mut b = b;
    while a < b && is_wsc_char(v[a])
        invariant
            a0 <= a as int <= b as int <= v@.len(),
            b as int == b0,
            trim_front_c(v@.subrange(a0, b0)) == trim_front_c(v@.subrange(a as int, b0)),
        decreases b - a,
    {
        proof {
            assert(v@.subrange(a as int, b0).drop_first() =~= v@.subrange(a + 1, b0));
        }
        a = a + 1;
    }
    proof {
        assert(trim_front_c(v@.subrange(a as int, b0)) == v@.subrange(a as int, b0));
    }
    while b > a && is_wsc_char(v[b - 1])
        invariant
            a0 <= a as int <= b as int <= b0 <= v@.len(),
            trim_front_c(v@.subrange(a0, b0)) == v@.subrange(a as int, b0),
            trim_back_c(v@.subrange(a as int, b0)) == trim_back_c(v@.subrange(a as int, b as int)),
        decreases b,
    {
        proof {
            assert(v@.subrange(a as int, b as int).drop_last() =~= v@.subrange(a as int, b - 1));
        }
        b = b - 1;
    }
    proof {
        assert(trim_back_c(v@.subrange(a as int, b as int)) == v@.subrange(a as int, b as int));
    }
    (a, b)
}

/// The token views named by a list of position ranges.
pub open spec fn tok_views(s: Seq<char>, toks: Seq<(usize, usize)>) -> Seq<Seq<char>> {
    toks.map_values(|t: (usize, usize)| s.subrange(t.0 as int, t.1 as int))
}

/// Splits `[a, b)` at single spaces into token position ranges.
pub(crate) fn tokens_of_range(v: &Vec<char>, a: usize, b: usize) -> (toks: Vec<(usize, usize)>)
    requires
        a <= b <= v@.len(),
    ensures
        tok_views(v@, toks@) == spec_split_spaces(v@.subrange(a as int, b as int)),
        toks@.len() >= 1,
        forall|t: int| 0 <= t < toks@.len() ==> a <= (#[trigger] toks@[t]).0 <= toks@[t].1 <= b,
{
    let ghost l = v@.subrange(a as int, b as int);
    let mut toks: Vec<(usize, usize)> = Vec::new();
    let mut tstart = a;
    let mut p = a;
    while p < b
        invariant
            a <= tstart <= p <= b <= v@.len(),
            l == v@.subrange(a as int, b as int),
            spec_split_spaces(l) == tok_views(v@, toks@) + split_sp(
                l,
                p - a,
                tstart - a,
            ),
            forall|t: int| 0 <= t < toks@.len() ==> a <= (#[trigger] toks@[t]).0 <= toks@[t].1 <= b,
        decreases b - p,
    {
        let ghost toks0 = toks@;
        if v[p] == ' ' {
            proof {
                assert(l[p - a] == ' ');
            }
            toks.push((tstart, p));
            proof {
                assert(l.subrange(tstart - a, p - a) =~= v@.subrange(tstart as int, p as int));
                assert(tok_views(v@, toks@) =~= tok_views(v@, toks0).push(
                    v@.subrange(tstart as int, p as int),
                ));
                assert(split_sp(l, p - a, tstart - a) == seq![l.subrange(tstart - a, p - a)]
                    + split_sp(l, p - a + 1, p - a + 1));
                assert(tok_views(v@, toks0) + split_sp(l, p - a, tstart - a) =~= tok_views(
                    v@,
                    toks@,
                ) + split_sp(l, p - a + 1, p - a + 1));
            }
            tstart = p + 1;
        } else {
            proof {
                assert(l[p - a] != ' ');
            }
        }
        p = p + 1;
    }
    let ghost toks1 = toks@;
    toks.push((tstart, b));
    proof {
        assert(split_sp(l, b - a, tstart - a) == seq![l.subrange(tstart - a, l.len() as int)]);
        assert(l.subrange(tstart - a, l.len() as int) =~= v@.subrange(tstart as int, b as int));
        assert(tok_views(v@, toks@) =~= tok_views(v@, toks1).push(
            v@.subrange(tstart as int, b as int),
        ));
        assert(tok_views(v@, toks1) + split_sp(l, b - a, tstart - a) =~= tok_views(v@, toks@));
    }
    toks
}

/// Parses the decimal number in `[a, b)`.
pub(crate) fn parse_usize_range(v: &Vec<char>, a: usize, b: usize) -> (r: Option<usize>)
    requires
        a <= b <= v@.len(),
    ensures
        match r {
            Some(n) => spec_parse_usize(v@.subrange(a as int, b as int)) == Some(n as int),
            None => spec_parse_usize(v@.subrange(a as int, b as int)) is None,
        },
{
    let ghost s = v@.subrange(a as int, b as int);
    if a == b {
        return None;
    }
    let mut acc: usize = 0;
    let mut k = a;
    while k < b
        invariant
            a <= k <= b <= v@.len(),
            s == v@.subrange(a as int, b as int),
            forall|i: int| 0 <= i < k - a ==> is_digit_c(#[trigger] s[i]),
            acc as int == digits_value(s.subrange(0, k - a)),
        decreases b - k,
    {
        let c = v[k];
        let cu = c as u32;
        proof {
            assert(s[k - a] == v@[k as int]);
        }
        if cu < 48 || cu > 57 {
            proof {
                assert(!is_digit_c(s[k - a]));
            }
            return None;
        }
        let d = (cu - 48) as usize;
        if acc > (usize::MAX - d) / 10 {
            proof {
                assert(acc * 10 + d > usize::MAX) by (nonlinear_arith)
                    requires
                        acc > (usize::MAX - d) / 10,
                        d <= 9,
                ;
                let p = s.subrange(0, k - a + 1);
                assert(p.drop_last() =~= s.subrange(0, k - a));
                assert(p.last() == s[k - a]);
                assert(digits_value(p) == acc * 10 + d);
                if forall|i: int| 0 <= i < s.len() ==> is_digit_c(#[trigger] s[i]) {
                    lemma_digits_value_mono(s, k - a + 1);
                }
            }
            return None;
        }
        proof {
            assert(acc * 10 + d <= usize::MAX) by (nonlinear_arith)
                requires
                    acc <= (usize::MAX - d) / 10,
                    d <= 9,
            ;
            let p = s.subrange(0, k - a + 1);
            assert(p.drop_last() =~= s.subrange(0, k - a));
            assert(p.last() == s[k - a]);
        }
        acc = acc * 10 + d;
        k = k + 1;
    }
    proof {
        assert(s.subrange(0, b - a) =~= s);
    }
    Some(acc)
}

} // verus!
