//! The language-identifier parser: a single forward pass over the token
//! stream with positional disambiguation and no backtracking.
//!
//! The first token must be a language subtag.  The next token is tried as a
//! script, then as a region, then as a variant; once the variant position is
//! reached every further token must be a variant.  Variants are collected
//! sorted and deduplicated.  When extension mode is on, parsing stops before
//! a single-character token so that a surrounding locale parser can take
//! over; the transform-extension mode also stops before a transform key.

use vstd::prelude::*;
use vstd::string::StringSliceAdditionalSpecFns;
use crate::codec::{is_ascii_alpha, is_ascii_digit, lower_seq, pack4};
use crate::errors::ParserError;
use crate::langid::{LangIdParts, LanguageIdentifier, sorted_strict};
use crate::subtags::{
    is_region_token, is_script_token, parse_language_subtag_bytes, parse_region_subtag_bytes,
    parse_script_subtag_bytes, parse_variant_subtag_bytes, spec_parse_language,
    spec_parse_variant, lemma_parse_language_wf, lemma_parse_region_wf, lemma_parse_script_wf,
    lemma_parse_variant_wf, wf_variant,
};
use crate::tokens::{split_tokens, token_views, tokenize};

verus! {

// ---------------------------------------------------------------------------
// Sorted insertion, the canonical-variant builder
// ---------------------------------------------------------------------------

/// Inserts `v` into an ascending sequence, keeping it ascending and
/// duplicate-free.
pub open spec fn insert_sorted_spec(s: Seq<u64>, v: u64) -> Seq<u64>
    decreases s.len(),
{
    if s.len() == 0 {
        seq![v]
    } else if v < s[0] {
        seq![v] + s
    } else if v == s[0] {
        s
    } else {
        seq![s[0]] + insert_sorted_spec(s.drop_first(), v)
    }
}

pub proof fn lemma_insert_sorted(s: Seq<u64>, v: u64)
    requires
        sorted_strict(s),
    ensures
        sorted_strict(insert_sorted_spec(s, v)),
        forall|x: u64| #[trigger] insert_sorted_spec(s, v).contains(x) <==> s.contains(x) || x
            == v,
        insert_sorted_spec(s, v).len() <= s.len() + 1,
    decreases s.len(),
{
    let r = insert_sorted_spec(s, v);
    if s.len() == 0 {
        assert forall|x: u64| #[trigger] r.contains(x) implies s.contains(x) || x == v by {
            assert(r[choose|i: int| 0 <= i < r.len() && r[i] == x] == v);
        }
        assert(r.contains(v)) by {
            assert(r[0] == v);
        }
    } else if v < s[0] {
        assert forall|x: u64| #[trigger] r.contains(x) implies s.contains(x) || x == v by {
            let i = choose|i: int| 0 <= i < r.len() && r[i] == x;
            if i > 0 {
                assert(s[i - 1] == x);
            }
        }
        assert(r.contains(v)) by {
            assert(r[0] == v);
        }
        assert forall|x: u64| s.contains(x) implies r.contains(x) by {
            let i = choose|i: int| 0 <= i < s.len() && s[i] == x;
            assert(r[i + 1] == x);
        }
    } else if v == s[0] {
        assert(r.contains(v)) by {
            assert(r[0] == v);
        }
    } else {
        let tail = s.drop_first();
        assert(sorted_strict(tail)) by {
            assert(forall|i: int, j: int|
                0 <= i < j < tail.len() ==> tail[i] == s[i + 1] && tail[j] == s[j + 1]);
        }
        lemma_insert_sorted(tail, v);
        let rt = insert_sorted_spec(tail, v);
        assert(r == seq![s[0]] + rt);
        // every element of rt is an element of tail or v, hence > s[0]
        assert(sorted_strict(r)) by {
            assert forall|i: int, j: int| 0 <= i < j < r.len() implies r[i] < r[j] by {
                if i == 0 {
                    assert(r[0] == s[0]);
                    assert(rt.contains(rt[j - 1])) by {
                        assert(rt[j - 1] == rt[j - 1]);
                    }
                    if rt[j - 1] == v {
                        assert(s[0] < v);
                    } else {
                        let k = choose|k: int| 0 <= k < tail.len() && tail[k] == rt[j - 1];
                        assert(tail[k] == s[k + 1]);
                        assert(s[0] < s[k + 1]);
                    }
                    assert(r[j] == rt[j - 1]);
                } else {
                    assert(r[i] == rt[i - 1] && r[j] == rt[j - 1]);
                }
            }
        }
        assert forall|x: u64| #[trigger] r.contains(x) implies s.contains(x) || x == v by {
            let i = choose|i: int| 0 <= i < r.len() && r[i] == x;
            if i == 0 {
                assert(s[0] == x);
            } else {
                assert(rt[i - 1] == x);
                assert(rt.contains(x));
                if x != v {
                    let k = choose|k: int| 0 <= k < tail.len() && tail[k] == x;
                    assert(s[k + 1] == x);
                }
            }
        }
        assert forall|x: u64| s.contains(x) || x == v implies r.contains(x) by {
            if x == v {
                assert(rt.contains(v));
                let k = choose|k: int| 0 <= k < rt.len() && rt[k] == v;
                assert(r[k + 1] == v);
            } else {
                let i = choose|i: int| 0 <= i < s.len() && s[i] == x;
                if i == 0 {
                    assert(r[0] == x);
                } else {
                    assert(tail[i - 1] == x);
                    assert(tail.contains(x));
                    assert(rt.contains(x));
                    let k = choose|k: int| 0 <= k < rt.len() && rt[k] == x;
                    assert(r[k + 1] == x);
                }
            }
        }
    }
}

pub proof fn lemma_insert_sorted_wf(s: Seq<u64>, v: u64)
    requires
        forall|k: int| 0 <= k < s.len() ==> wf_variant(#[trigger] s[k]),
        wf_variant(v),
        sorted_strict(s),
    ensures
        forall|k: int|
            0 <= k < insert_sorted_spec(s, v).len() ==> wf_variant(
                #[trigger] insert_sorted_spec(s, v)[k],
            ),
{
    lemma_insert_sorted(s, v);
    let r = insert_sorted_spec(s, v);
    assert forall|k: int| 0 <= k < r.len() implies wf_variant(r[k]) by {
        assert(r.contains(r[k]));
        if r[k] != v {
            let i = choose|i: int| 0 <= i < s.len() && s[i] == r[k];
            assert(wf_variant(s[i]));
        }
    }
}

/// How far `insert_sorted_spec` walks: past every element below `v`.
pub proof fn lemma_insert_sorted_at(s: Seq<u64>, v: u64, i: int)
    requires
        0 <= i <= s.len(),
        forall|k: int| 0 <= k < i ==> #[trigger] s[k] < v,
        i < s.len() ==> s[i] >= v,
    ensures
        insert_sorted_spec(s, v) == if i < s.len() && s[i] == v {
            s
        } else {
            s.take(i) + seq![v] + s.skip(i)
        },
    decreases i,
{
    if i == 0 {
        if s.len() == 0 {
            assert(insert_sorted_spec(s, v) =~= s.take(0) + seq![v] + s.skip(0));
        } else if s[0] == v {
        } else {
            assert(v < s[0]);
            assert(insert_sorted_spec(s, v) =~= s.take(0) + seq![v] + s.skip(0));
        }
    } else {
        let tail = s.drop_first();
        assert(s[0] < v);
        assert(forall|k: int| 0 <= k < i - 1 ==> #[trigger] tail[k] == s[k + 1]);
        assert(i - 1 < tail.len() ==> tail[i - 1] == s[i]);
        lemma_insert_sorted_at(tail, v, i - 1);
        if i < s.len() && s[i] == v {
            assert(insert_sorted_spec(s, v) =~= s);
        } else {
            assert(seq![s[0]] + (tail.take(i - 1) + seq![v] + tail.skip(i - 1)) =~= s.take(i)
                + seq![v] + s.skip(i));
        }
    }
}

/// Inserts `v` into the ascending vector `vec`, keeping it ascending and
/// duplicate-free.
pub fn insert_sorted(vec: &mut Vec<u64>, v: u64)
    requires
        sorted_strict(old(vec)@),
    ensures
        final(vec)@ == insert_sorted_spec(old(vec)@, v),
{
    let mut i: usize = 0;
    while i < vec.len() && vec[i] < v
        invariant
            i <= vec@.len(),
            vec@ == old(vec)@,
            forall|k: int| 0 <= k < i ==> #[trigger] vec@[k] < v,
        decreases vec@.len() - i,
    {
        i = i + 1;
    }
    proof {
        lemma_insert_sorted_at(vec@, v, i as int);
    }
    if i < vec.len() && vec[i] == v {
        return ;
    }
    vec.insert(i, v);
    proof {
        assert(vec@ =~= old(vec)@.take(i as int) + seq![v] + old(vec)@.skip(i as int));
    }
}

// ---------------------------------------------------------------------------
// The positional parse, as a spec state machine
// ---------------------------------------------------------------------------

/// A transform-extension key: a letter followed by a digit.
pub open spec fn is_tkey_token(t: Seq<u8>) -> bool {
    t.len() == 2 && is_ascii_alpha(t[0]) && is_ascii_digit(t[1])
}

/// Whether the parse hands the stream back before `t`: before a
/// single-character extension singleton when `ext` is on, and also before a
/// transform key when `tk` is on.
pub open spec fn stop_token(t: Seq<u8>, ext: bool, tk: bool) -> bool {
    (ext && t.len() == 1) || (tk && is_tkey_token(t))
}

/// One step of the positional parse at token `i`, carrying the position
/// (0 language, 1 script, 2 region, 3 variants) and the fields read so far;
/// returns the finished parts and the index just past the consumed tokens.
pub open spec fn spec_parse_langid_rest(
    toks: Seq<Seq<u8>>,
    i: int,
    position: int,
    language: Option<u64>,
    script: Option<u32>,
    region: Option<u32>,
    variants: Seq<u64>,
    ext: bool,
    tk: bool,
) -> Result<(LangIdParts, int), ParserError>
    decreases toks.len() - i, 1int,
{
    if i < 0 || i >= toks.len() {
        Ok((LangIdParts { language, script, region, variants }, toks.len() as int))
    } else {
        let t = toks[i];
        if position == 0 {
            match spec_parse_language(t) {
                Err(e) => Err(e),
                Ok(l) => spec_parse_langid_go(toks, i, 1, l, script, region, variants, ext, tk),
            }
        } else if position == 1 {
            if is_script_token(t) {
                spec_parse_langid_go(
                    toks,
                    i,
                    2,
                    language,
                    Some(pack4(lower_seq(t))),
                    region,
                    variants,
                    ext,
                    tk,
                )
            } else if is_region_token(t) {
                spec_parse_langid_go(
                    toks,
                    i,
                    3,
                    language,
                    script,
                    Some(pack4(lower_seq(t))),
                    variants,
                    ext,
                    tk,
                )
            } else {
                match spec_parse_variant(t) {
                    Err(e) => Err(e),
                    Ok(v) => spec_parse_langid_go(
                        toks,
                        i,
                        3,
                        language,
                        script,
                        region,
                        insert_sorted_spec(variants, v),
                        ext,
                        tk,
                    ),
                }
            }
        } else if position == 2 {
            if is_region_token(t) {
                spec_parse_langid_go(
                    toks,
                    i,
                    3,
                    language,
                    script,
                    Some(pack4(lower_seq(t))),
                    variants,
                    ext,
                    tk,
                )
            } else {
                match spec_parse_variant(t) {
                    Err(e) => Err(e),
                    Ok(v) => spec_parse_langid_go(
                        toks,
                        i,
                        3,
                        language,
                        script,
                        region,
                        insert_sorted_spec(variants, v),
                        ext,
                        tk,
                    ),
                }
            }
        } else {
            match spec_parse_variant(t) {
                Err(e) => Err(e),
                Ok(v) => spec_parse_langid_go(
                    toks,
                    i,
                    position,
                    language,
                    script,
                    region,
                    insert_sorted_spec(variants, v),
                    ext,
                    tk,
                ),
            }
        }
    }
}

/// After consuming token `i`: stop before a stop token, else go on at `i + 1`.
pub open spec fn spec_parse_langid_go(
    toks: Seq<Seq<u8>>,
    i: int,
    position: int,
    language: Option<u64>,
    script: Option<u32>,
    region: Option<u32>,
    variants: Seq<u64>,
    ext: bool,
    tk: bool,
) -> Result<(LangIdParts, int), ParserError>
    decreases toks.len() - i, 0int,
{
    if i < 0 || i >= toks.len() {
        Ok((LangIdParts { language, script, region, variants }, toks.len() as int))
    } else if i + 1 < toks.len() && stop_token(toks[i + 1], ext, tk) {
        Ok((LangIdParts { language, script, region, variants }, i + 1))
    } else {
        spec_parse_langid_rest(
            toks,
            i + 1,
            position,
            language,
            script,
            region,
            variants,
            ext,
            tk,
        )
    }
}

/// The whole parse from token `start` in the initial state.
pub open spec fn spec_parse_langid_from(toks: Seq<Seq<u8>>, start: int, ext: bool, tk: bool) -> Result<
    (LangIdParts, int),
    ParserError,
> {
    spec_parse_langid_rest(toks, start, 0, None, None, None, Seq::empty(), ext, tk)
}

/// Parsing a whole byte string: split it, then consume every token.
pub open spec fn spec_parse_langid_bytes(s: Seq<u8>) -> Result<LangIdParts, ParserError> {
    match spec_parse_langid_from(split_tokens(s), 0, false, false) {
        Ok(pair) => Ok(pair.0),
        Err(e) => Err(e),
    }
}

// ---------------------------------------------------------------------------
// Executable parser
// ---------------------------------------------------------------------------

pub fn is_stop_token_bytes(t: &Vec<u8>, ext: bool, tk: bool) -> (r: bool)
    ensures
        r == stop_token(t@, ext, tk),
{
    if ext && t.len() == 1 {
        return true;
    }
    if tk && t.len() == 2 {
        let a = t[0];
        let b = t[1];
        return crate::codec::byte_is_alpha(a) && crate::codec::byte_is_digit(b);
    }
    false
}

/// Parses a language identifier out of `toks` starting at `start`.
///
/// Returns the identifier and the index of the first token it did not
/// consume; a stop token (see `stop_token`) is left for the caller.  The
/// result satisfies exactly the positional parse `spec_parse_langid_from`.
#[verifier::rlimit(50)]
pub fn parse_langid_tokens(toks: &Vec<Vec<u8>>, start: usize, ext: bool, tk: bool) -> (r: Result<
    (LanguageIdentifier, usize),
    ParserError,
>)
    requires
        start <= toks@.len(),
    ensures
        ({
            let tv = token_views(toks@);
            match r {
                Ok(pair) => {
                    &&& spec_parse_langid_from(tv, start as int, ext, tk) matches Ok(sp)
                        && sp.0 == pair.0.parts() && sp.1 == pair.1 as int
                    &&& pair.0.wf()
                    &&& start <= pair.1 <= toks@.len()
                    &&& start < toks@.len() ==> pair.1 > start
                },
                Err(e) => spec_parse_langid_from(tv, start as int, ext, tk) == Err::<
                    (LangIdParts, int),
                    ParserError,
                >(e),
            }
        }),
{
    let ghost tv = token_views(toks@);
    let mut i: usize = start;
    let mut position: u8 = 0;
    let mut language: Option<u64> = None;
    let mut script: Option<u32> = None;
    let mut region: Option<u32> = None;
    let mut variants: Vec<u64> = Vec::new();
    let ghost target = spec_parse_langid_from(tv, start as int, ext, tk);

    while i < toks.len()
        invariant
            start <= i <= toks@.len(),
            tv == token_views(toks@),
            target == spec_parse_langid_from(tv, start as int, ext, tk),
            position <= 3,
            target == spec_parse_langid_rest(
                tv,
                i as int,
                position as int,
                language,
                script,
                region,
                variants@,
                ext,
                tk,
            ),
            language matches Some(l) ==> crate::subtags::wf_language(l),
            script matches Some(s) ==> crate::subtags::wf_script(s),
            region matches Some(rg) ==> crate::subtags::wf_region(rg),
            sorted_strict(variants@),
            forall|k: int| 0 <= k < variants@.len() ==> wf_variant(#[trigger] variants@[k]),
            variants@.len() <= i,
        decreases toks@.len() - i,
    {
        let t = &toks[i];
        proof {
            assert(tv[i as int] == t@);
        }
        if position == 0 {
            match parse_language_subtag_bytes(t) {
                Err(e) => {
                    return Err(e);
                },
                Ok(l) => {
                    proof {
                        if l is Some {
                            lemma_parse_language_wf(t@);
                        }
                    }
                    language = l;
                    position = 1;
                },
            }
        } else if position == 1 {
            match parse_script_subtag_bytes(t) {
                Ok(sc) => {
                    proof {
                        lemma_parse_script_wf(t@);
                    }
                    script = Some(sc);
                    position = 2;
                },
                Err(_) => {
                    match parse_region_subtag_bytes(t) {
                        Ok(rg) => {
                            proof {
                                lemma_parse_region_wf(t@);
                            }
                            region = Some(rg);
                            position = 3;
                        },
                        Err(_) => {
                            match parse_variant_subtag_bytes(t) {
                                Err(e) => {
                                    return Err(e);
                                },
                                Ok(v) => {
                                    proof {
                                        lemma_parse_variant_wf(t@);
                                        lemma_insert_sorted(variants@, v);
                                        lemma_insert_sorted_wf(variants@, v);
                                    }
                                    insert_sorted(&mut variants, v);
                                    position = 3;
                                },
                            }
                        },
                    }
                },
            }
        } else if position == 2 {
            match parse_region_subtag_bytes(t) {
                Ok(rg) => {
                    proof {
                        lemma_parse_region_wf(t@);
                    }
                    region = Some(rg);
                    position = 3;
                },
                Err(_) => {
                    match parse_variant_subtag_bytes(t) {
                        Err(e) => {
                            return Err(e);
                        },
                        Ok(v) => {
                            proof {
                                lemma_parse_variant_wf(t@);
                                lemma_insert_sorted(variants@, v);
                                lemma_insert_sorted_wf(variants@, v);
                            }
                            insert_sorted(&mut variants, v);
                            position = 3;
                        },
                    }
                },
            }
        } else {
            match parse_variant_subtag_bytes(t) {
                Err(e) => {
                    return Err(e);
                },
                Ok(v) => {
                    proof {
                        lemma_parse_variant_wf(t@);
                        lemma_insert_sorted(variants@, v);
                        lemma_insert_sorted_wf(variants@, v);
                    }
                    insert_sorted(&mut variants, v);
                },
            }
        }
        if i + 1 < toks.len() {
            let peek = &toks[i + 1];
            proof {
                assert(tv[i + 1] == peek@);
            }
            if is_stop_token_bytes(peek, ext, tk) {
                let id = LanguageIdentifier { language, script, region, variants };
                return Ok((id, i + 1));
            }
        }
        i = i + 1;
    }
    let id = LanguageIdentifier { language, script, region, variants };
    Ok((id, i))
}

/// Parses a full language identifier from text; every token must belong to
/// the identifier.
pub fn parse_language_identifier(t: &str) -> (r: Result<LanguageIdentifier, ParserError>)
    ensures
        ({
            let sp = spec_parse_langid_bytes(t.spec_bytes());
            match r {
                Ok(id) => sp matches Ok(p) && p == id.parts() && id.wf(),
                Err(e) => sp == Err::<LangIdParts, ParserError>(e),
            }
        }),
{
    let bytes = t.as_bytes_vec();
    let toks = tokenize(&bytes);
    match parse_langid_tokens(&toks, 0, false, false) {
        Ok(pair) => Ok(pair.0),
        Err(e) => Err(e),
    }
}

} // verus!
