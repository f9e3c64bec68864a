//! Splitting raw input into subtag tokens.
//!
//! Input is cut at every `-` or `_`; the two separators are interchangeable
//! on input.  Splitting follows the usual convention: `n` separators yield
//! `n + 1` tokens, so empty tokens appear around doubled, leading or
//! trailing separators and the empty input yields one empty token.

use vstd::prelude::*;
use crate::codec::is_sep;

verus! {

/// Index of the first separator, or the length when there is none.
pub open spec fn find_sep(s: Seq<u8>) -> nat
    decreases s.len(),
{
    if s.len() == 0 {
        0
    } else if is_sep(s[0]) {
        0
    } else {
        1 + find_sep(s.drop_first())
    }
}

pub proof fn lemma_find_sep(s: Seq<u8>)
    ensures
        find_sep(s) <= s.len(),
        forall|j: int| 0 <= j < find_sep(s) ==> !is_sep(#[trigger] s[j]),
        find_sep(s) < s.len() ==> is_sep(s[find_sep(s) as int]),
    decreases s.len(),
{
    if s.len() == 0 {
    } else if is_sep(s[0]) {
    } else {
        lemma_find_sep(s.drop_first());
        assert forall|j: int| 0 <= j < find_sep(s) implies !is_sep(#[trigger] s[j]) by {
            if j > 0 {
                assert(s.drop_first()[j - 1] == s[j]);
            }
        }
        if find_sep(s) < s.len() {
            assert(s.drop_first()[find_sep(s.drop_first()) as int] == s[find_sep(s) as int]);
        }
    }
}

/// The converse: a scan that saw no separator before `j`, and one at `j`
/// unless `j` is the end, has found `find_sep`.
pub proof fn lemma_find_sep_at(s: Seq<u8>, j: int)
    requires
        0 <= j <= s.len(),
        forall|k: int| 0 <= k < j ==> !is_sep(#[trigger] s[k]),
        j < s.len() ==> is_sep(s[j]),
    ensures
        find_sep(s) == j,
    decreases j,
{
    if j == 0 {
    } else {
        lemma_find_sep_at(s.drop_first(), j - 1);
    }
}

/// The views of a list of owned tokens.
pub open spec fn token_views(toks: Seq<Vec<u8>>) -> Seq<Seq<u8>> {
    toks.map_values(|t: Vec<u8>| t@)
}

/// The token list of a byte string.
pub open spec fn split_tokens(s: Seq<u8>) -> Seq<Seq<u8>>
    decreases s.len(),
{
    let i = find_sep(s) as int;
    if i >= s.len() {
        seq![s]
    } else {
        seq![s.take(i)] + split_tokens(s.skip(i + 1))
    }
}

/// Copies `s[from .. to]` into a fresh vector.
pub fn copy_range(s: &Vec<u8>, from: usize, to: usize) -> (out: Vec<u8>)
    requires
        from <= to <= s@.len(),
    ensures
        out@ == s@.subrange(from as int, to as int),
{
    let mut out: Vec<u8> = Vec::new();
    let mut k: usize = from;
    while k < to
        invariant
            from <= k <= to <= s@.len(),
            out@ =~= s@.subrange(from as int, k as int),
        decreases to - k,
    {
        out.push(s[k]);
        assert(out@ =~= s@.subrange(from as int, k + 1));
        k = k + 1;
    }
    out
}

pub fn byte_is_sep(b: u8) -> (r: bool)
    ensures
        r == is_sep(b),
{
    b == 45 || b == 95
}

/// Splits the input at every separator.
pub fn tokenize(s: &Vec<u8>) -> (toks: Vec<Vec<u8>>)
    ensures
        token_views(toks@) == split_tokens(s@),
{
    let mut toks: Vec<Vec<u8>> = Vec::new();
    let mut i: usize = 0;
    let mut done = false;
    proof {
        assert(s@.skip(0) =~= s@);
    }
    while !done
        invariant
            done ==> toks@.map_values(|t: Vec<u8>| t@) =~= split_tokens(s@),
            !done ==> i <= s@.len() && toks@.map_values(|t: Vec<u8>| t@) + split_tokens(
                s@.skip(i as int),
            ) =~= split_tokens(s@),
        decreases s@.len() - i + (if done { 0int } else { 1int }),
    {
        let ghost rest = s@.skip(i as int);
        let mut j: usize = i;
        while j < s.len() && !byte_is_sep(s[j])
            invariant
                i <= j <= s@.len(),
                forall|k: int| i <= k < j ==> !is_sep(#[trigger] s@[k]),
            decreases s@.len() - j,
        {
            j = j + 1;
        }
        proof {
            assert(forall|k: int| 0 <= k < j - i ==> rest[k] == s@[i + k]);
            lemma_find_sep_at(rest, j - i);
        }
        let tok = copy_range(s, i, j);
        proof {
            assert(tok@ =~= rest.take(j - i));
        }
        toks.push(tok);
        if j == s.len() {
            proof {
                assert(split_tokens(rest) =~= seq![rest.take(j - i)]);
            }
            done = true;
        } else {
            proof {
                assert(rest.skip(j - i + 1) =~= s@.skip(j + 1));
                assert(split_tokens(rest) =~= seq![rest.take(j - i)] + split_tokens(
                    s@.skip(j + 1),
                ));
            }
            i = j + 1;
        }
    }
    proof {
        assert(token_views(toks@) =~= toks@.map_values(|t: Vec<u8>| t@));
    }
    toks
}

} // verus!
