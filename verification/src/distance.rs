//! Levenshtein edit distance: the mathematical definition, the facts the
//! search structures need, and the bridge to the `levenshtein` crate.

use vstd::prelude::*;

verus! {

/// Classic Levenshtein distance between two character sequences: the least
/// number of single-character insertions, deletions and substitutions that
/// turns `a` into `b`.
pub open spec fn edit_distance(a: Seq<char>, b: Seq<char>) -> nat
    decreases a.len() + b.len(),
{
    if a.len() == 0 {
        b.len()
    } else if b.len() == 0 {
        a.len()
    } else {
        let del = edit_distance(a.drop_first(), b) + 1;
        let ins = edit_distance(a, b.drop_first()) + 1;
        let sub = edit_distance(a.drop_first(), b.drop_first()) + (
        if a[0] == b[0] {
            0nat
        } else {
            1nat
        });
        min3(del, ins, sub)
    }
}

pub open spec fn min3(x: nat, y: nat, z: nat) -> nat {
    if x <= y && x <= z {
        x
    } else if y <= z {
        y
    } else {
        z
    }
}

/// A sequence is at distance zero from itself.
pub proof fn lemma_edit_distance_self(a: Seq<char>)
    ensures
        edit_distance(a, a) == 0,
    decreases a.len(),
{
    if a.len() > 0 {
        lemma_edit_distance_self(a.drop_first());
    }
}

/// How many edits a query of this byte length may plausibly contain: one for
/// every three bytes, with one more unless the length is a multiple of four.
pub open spec fn error_budget(s: Seq<char>) -> nat {
    let n = vstd::utf8::encode_utf8(s).len();
    n / 3 + if n % 4 != 0 {
        1nat
    } else {
        0nat
    }
}

/// Relies on `levenshtein::levenshtein`, which computes the Levenshtein
/// distance over the characters of its two arguments.
#[verifier::external_body]
pub(crate) fn levenshtein_dist(a: &str, b: &str) -> (d: usize)
    ensures
        d == edit_distance(a@, b@),
{
    levenshtein::levenshtein(a, b)
}

} // verus!
