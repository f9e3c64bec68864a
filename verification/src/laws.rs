//! The library's laws: statements that relate the parser and the
//! serializer, proved once for every well-formed value.

use vstd::prelude::*;
use crate::codec::{
    is_sep, is_ascii_alpha, is_ascii_digit, is_ascii_alphanumeric, lower_byte, lower_seq,
    title_seq, upper_byte, upper_seq, unpack8, unpack4, pack4,
};
use crate::errors::ParserError;
use crate::langid::{
    LangIdParts, lang_bytes, serialize_langid, sorted_strict, variants_bytes, wf_parts,
};
use crate::parser::{
    insert_sorted_spec, lemma_insert_sorted, lemma_insert_sorted_at, spec_parse_langid_bytes,
    spec_parse_langid_from, spec_parse_langid_go, spec_parse_langid_rest, stop_token,
};
use crate::subtags::{
    is_language_token, is_region_token, is_script_token, is_variant_token, is_lower_alpha,
    is_lower_alnum, spec_parse_language, spec_parse_variant, und_bytes, wf_language, wf_region,
    wf_script, wf_variant,
};
use crate::tokens::{find_sep, lemma_find_sep_at, split_tokens};

verus! {

// ---------------------------------------------------------------------------
// Small facts about case folding on stored subtags
// ---------------------------------------------------------------------------

/// A sequence with no upper-case letters is fixed by lower-casing.
pub proof fn lemma_lower_fixes(s: Seq<u8>)
    requires
        forall|i: int| 0 <= i < s.len() ==> !(65 <= #[trigger] s[i] <= 90),
    ensures
        lower_seq(s) == s,
{
    assert(lower_seq(s) =~= s);
}

/// Lower-casing undoes the title-casing of a lower-case alphabetic string.
pub proof fn lemma_lower_title(s: Seq<u8>)
    requires
        forall|i: int| 0 <= i < s.len() ==> is_lower_alpha(#[trigger] s[i]),
    ensures
        lower_seq(title_seq(s)) == s,
{
    assert(lower_seq(title_seq(s)) =~= s);
}

/// Lower-casing undoes the upper-casing of a lower-case alphanumeric string.
pub proof fn lemma_lower_upper(s: Seq<u8>)
    requires
        forall|i: int| 0 <= i < s.len() ==> is_lower_alnum(#[trigger] s[i]),
    ensures
        lower_seq(upper_seq(s)) == s,
{
    assert(lower_seq(upper_seq(s)) =~= s);
}

// ---------------------------------------------------------------------------
// The canonical token list of an identifier
// ---------------------------------------------------------------------------

/// The displayed variant tokens.
pub open spec fn variant_tokens(vs: Seq<u64>) -> Seq<Seq<u8>> {
    vs.map_values(|v: u64| unpack8(v))
}

/// The canonical token list: displayed language, script, region, variants.
pub open spec fn langid_tokens(p: LangIdParts) -> Seq<Seq<u8>> {
    seq![lang_bytes(p.language)] + (match p.script {
        None => Seq::<Seq<u8>>::empty(),
        Some(v) => seq![title_seq(unpack4(v))],
    }) + (match p.region {
        None => Seq::<Seq<u8>>::empty(),
        Some(v) => seq![upper_seq(unpack4(v))],
    }) + variant_tokens(p.variants)
}

/// A displayable token: nonempty, and free of separators.
pub open spec fn clean_token(t: Seq<u8>) -> bool {
    t.len() > 0 && (forall|i: int| 0 <= i < t.len() ==> !is_sep(#[trigger] t[i]))
}

/// Tokens joined by hyphens.
pub open spec fn join_tokens(ts: Seq<Seq<u8>>) -> Seq<u8>
    decreases ts.len(),
{
    if ts.len() == 0 {
        Seq::empty()
    } else if ts.len() == 1 {
        ts[0]
    } else {
        ts[0] + seq![45u8] + join_tokens(ts.drop_first())
    }
}

/// Splitting one clean token yields just that token.
pub proof fn lemma_split_single(t: Seq<u8>)
    requires
        forall|i: int| 0 <= i < t.len() ==> !is_sep(#[trigger] t[i]),
    ensures
        split_tokens(t) == seq![t],
{
    lemma_find_sep_at(t, t.len() as int);
}

/// Splitting `t-rest` for a clean token `t` peels `t` off the front.
pub proof fn lemma_split_peel(t: Seq<u8>, rest: Seq<u8>)
    requires
        forall|i: int| 0 <= i < t.len() ==> !is_sep(#[trigger] t[i]),
    ensures
        split_tokens(t + seq![45u8] + rest) == seq![t] + split_tokens(rest),
{
    let whole = t + seq![45u8] + rest;
    assert forall|i: int| 0 <= i < t.len() implies !is_sep(#[trigger] whole[i]) by {
        assert(whole[i] == t[i]);
    }
    assert(whole[t.len() as int] == 45);
    lemma_find_sep_at(whole, t.len() as int);
    assert(whole.take(t.len() as int) =~= t);
    assert(whole.skip(t.len() as int + 1) =~= rest);
}

/// Splitting hyphen-joined clean tokens recovers exactly the tokens.
pub proof fn lemma_split_join(ts: Seq<Seq<u8>>)
    requires
        ts.len() >= 1,
        forall|k: int| 0 <= k < ts.len() ==> clean_token(#[trigger] ts[k]),
    ensures
        split_tokens(join_tokens(ts)) == ts,
    decreases ts.len(),
{
    if ts.len() == 1 {
        assert(clean_token(ts[0]));
        lemma_split_single(ts[0]);
        assert(split_tokens(join_tokens(ts)) =~= ts);
    } else {
        let tail = ts.drop_first();
        assert(forall|k: int| 0 <= k < tail.len() ==> clean_token(#[trigger] tail[k]));
        lemma_split_join(tail);
        assert(clean_token(ts[0]));
        lemma_split_peel(ts[0], join_tokens(tail));
        assert(split_tokens(join_tokens(ts)) =~= ts);
    }
}

/// The canonical text is the canonical tokens joined by hyphens.
pub proof fn lemma_serialize_is_join(p: LangIdParts)
    ensures
        serialize_langid(p) == join_tokens(langid_tokens(p)),
{
    let ts = langid_tokens(p);
    lemma_join_prefix(p);
}

/// Joining of the language/script/region prefix followed by the variants.
proof fn lemma_join_prefix(p: LangIdParts)
    ensures
        serialize_langid(p) == join_tokens(langid_tokens(p)),
{
    let lb = lang_bytes(p.language);
    let sb = match p.script {
        None => Seq::<u8>::empty(),
        Some(v) => seq![45u8] + title_seq(unpack4(v)),
    };
    let rb = match p.region {
        None => Seq::<u8>::empty(),
        Some(v) => seq![45u8] + upper_seq(unpack4(v)),
    };
    let vts = variant_tokens(p.variants);
    lemma_join_variants(p.variants);
    match (p.script, p.region) {
        (None, None) => {
            if p.variants.len() == 0 {
                assert(langid_tokens(p) =~= seq![lb]);
                assert(serialize_langid(p) =~= lb);
                assert(join_tokens(langid_tokens(p)) == lb);
            } else {
                assert(langid_tokens(p) =~= seq![lb] + vts);
                lemma_join_cons(lb, vts);
                assert(serialize_langid(p) =~= lb + seq![45u8] + join_tokens(vts));
            }
        },
        (Some(sc), None) => {
            let st = title_seq(unpack4(sc));
            if p.variants.len() == 0 {
                assert(langid_tokens(p) =~= seq![lb, st]);
                lemma_join_cons(lb, seq![st]);
                assert(join_tokens(seq![st]) == st);
                assert(serialize_langid(p) =~= lb + seq![45u8] + st);
            } else {
                assert(langid_tokens(p) =~= seq![lb] + (seq![st] + vts));
                lemma_join_cons(lb, seq![st] + vts);
                lemma_join_cons(st, vts);
                assert((seq![st] + vts)[0] == st);
                assert((seq![st] + vts).drop_first() =~= vts);
                assert(serialize_langid(p) =~= lb + seq![45u8] + (st + seq![45u8] + join_tokens(
                    vts,
                )));
            }
        },
        (None, Some(rg)) => {
            let rt = upper_seq(unpack4(rg));
            if p.variants.len() == 0 {
                assert(langid_tokens(p) =~= seq![lb, rt]);
                lemma_join_cons(lb, seq![rt]);
                assert(join_tokens(seq![rt]) == rt);
                assert(serialize_langid(p) =~= lb + seq![45u8] + rt);
            } else {
                assert(langid_tokens(p) =~= seq![lb] + (seq![rt] + vts));
                lemma_join_cons(lb, seq![rt] + vts);
                lemma_join_cons(rt, vts);
                assert((seq![rt] + vts)[0] == rt);
                assert((seq![rt] + vts).drop_first() =~= vts);
                assert(serialize_langid(p) =~= lb + seq![45u8] + (rt + seq![45u8] + join_tokens(
                    vts,
                )));
            }
        },
        (Some(sc), Some(rg)) => {
            let st = title_seq(unpack4(sc));
            let rt = upper_seq(unpack4(rg));
            if p.variants.len() == 0 {
                assert(langid_tokens(p) =~= seq![lb] + (seq![st] + (seq![rt])));
                lemma_join_cons(lb, seq![st, rt]);
                lemma_join_cons(st, seq![rt]);
                assert((seq![st] + seq![rt]) =~= seq![st, rt]);
                assert(seq![st, rt].drop_first() =~= seq![rt]);
                assert(join_tokens(seq![rt]) == rt);
                assert(serialize_langid(p) =~= lb + seq![45u8] + (st + seq![45u8] + rt));
            } else {
                assert(langid_tokens(p) =~= seq![lb] + (seq![st] + (seq![rt] + vts)));
                lemma_join_cons(lb, seq![st] + (seq![rt] + vts));
                lemma_join_cons(st, seq![rt] + vts);
                lemma_join_cons(rt, vts);
                assert((seq![st] + (seq![rt] + vts))[0] == st);
                assert((seq![st] + (seq![rt] + vts)).drop_first() =~= seq![rt] + vts);
                assert((seq![rt] + vts)[0] == rt);
                assert((seq![rt] + vts).drop_first() =~= vts);
                assert(serialize_langid(p) =~= lb + seq![45u8] + (st + seq![45u8] + (rt + seq![45u8]
                    + join_tokens(vts))));
            }
        },
    }
}

/// Unfolds one join step for a nonempty tail.
proof fn lemma_join_cons(t: Seq<u8>, rest: Seq<Seq<u8>>)
    requires
        rest.len() >= 1,
    ensures
        join_tokens(seq![t] + rest) == t + seq![45u8] + join_tokens(rest),
{
    let ts = seq![t] + rest;
    assert(ts.len() >= 2);
    assert(ts[0] == t);
    assert(ts.drop_first() =~= rest);
}

/// The variants part of the text is the joined variant tokens, with a
/// leading hyphen when nonempty.
proof fn lemma_join_variants(vs: Seq<u64>)
    ensures
        vs.len() == 0 ==> variants_bytes(vs) == Seq::<u8>::empty(),
        vs.len() > 0 ==> variants_bytes(vs) == seq![45u8] + join_tokens(variant_tokens(vs)),
    decreases vs.len(),
{
    if vs.len() > 0 {
        lemma_join_variants(vs.drop_first());
        let vts = variant_tokens(vs);
        assert(vts.len() == vs.len());
        assert(vts[0] == unpack8(vs[0]));
        if vs.len() == 1 {
            assert(variants_bytes(vs) == seq![45u8] + unpack8(vs[0]) + variants_bytes(
                vs.drop_first(),
            ));
            assert(join_tokens(vts) == vts[0]);
            assert(variants_bytes(vs) =~= seq![45u8] + join_tokens(vts));
        } else {
            assert(vts.drop_first() =~= variant_tokens(vs.drop_first()));
            assert(join_tokens(vts) == vts[0] + seq![45u8] + join_tokens(vts.drop_first()));
            assert(variants_bytes(vs) == seq![45u8] + unpack8(vs[0]) + variants_bytes(
                vs.drop_first(),
            ));
            assert(variants_bytes(vs.drop_first()) == seq![45u8] + join_tokens(
                variant_tokens(vs.drop_first()),
            ));
            assert(variants_bytes(vs) =~= seq![45u8] + join_tokens(vts));
        }
    }
}

} // verus!

verus! {

// ---------------------------------------------------------------------------
// Canonical tokens re-parse to the fields they display
// ---------------------------------------------------------------------------

/// The canonical tokens of a well-formed identifier are displayable.
pub proof fn lemma_langid_tokens_clean(p: LangIdParts)
    requires
        wf_parts(p),
    ensures
        forall|k: int| 0 <= k < langid_tokens(p).len() ==> clean_token(#[trigger] langid_tokens(p)[k]),
        langid_tokens(p).len() >= 1,
{
    let ts = langid_tokens(p);
    assert forall|k: int| 0 <= k < ts.len() implies clean_token(ts[k]) by {
        let sn: int = if p.script is Some { 1 } else { 0 };
        let rn: int = if p.region is Some { 1 } else { 0 };
        if k == 0 {
            assert(ts[0] == lang_bytes(p.language));
            match p.language {
                None => {
                    assert(und_bytes().len() == 3);
                    assert(forall|i: int|
                        0 <= i < und_bytes().len() ==> !is_sep(#[trigger] und_bytes()[i]));
                },
                Some(l) => {
                    assert(forall|i: int|
                        0 <= i < unpack8(l).len() ==> is_lower_alpha(#[trigger] unpack8(l)[i]));
                },
            }
        } else if p.script is Some && k == 1 {
            let sc = p.script->Some_0;
            assert(ts[1] == title_seq(unpack4(sc)));
            let u = unpack4(sc);
            assert forall|i: int| 0 <= i < title_seq(u).len() implies !is_sep(
                #[trigger] title_seq(u)[i],
            ) by {
                assert(is_lower_alpha(u[i]));
                if i == 0 {
                    assert(title_seq(u)[i] == upper_byte(u[i]));
                }
            }
        } else if p.region is Some && k == 1 + sn {
            let rg = p.region->Some_0;
            assert(ts[k] == upper_seq(unpack4(rg)));
            let u = unpack4(rg);
            assert forall|i: int| 0 <= i < upper_seq(u).len() implies !is_sep(
                #[trigger] upper_seq(u)[i],
            ) by {
                assert(upper_seq(u)[i] == upper_byte(u[i]));
                assert(is_lower_alnum(u[i]));
            }
        } else {
            let j = k - 1 - sn - rn;
            assert(ts[k] == variant_tokens(p.variants)[j]);
            assert(ts[k] == unpack8(p.variants[j]));
            assert(wf_variant(p.variants[j]));
            assert(forall|i: int|
                0 <= i < unpack8(p.variants[j]).len() ==> is_lower_alnum(
                    #[trigger] unpack8(p.variants[j])[i],
                ));
        }
    }
}

/// No canonical token of a well-formed identifier is a stop token: all
/// are at least two bytes, and none is a letter-digit pair.
proof fn lemma_langid_tokens_no_stop(p: LangIdParts, ext: bool, tk: bool)
    requires
        wf_parts(p),
    ensures
        forall|k: int|
            0 <= k < langid_tokens(p).len() ==> !stop_token(#[trigger] langid_tokens(p)[k], ext, tk),
{
    let ts = langid_tokens(p);
    assert forall|k: int| 0 <= k < ts.len() implies !stop_token(ts[k], ext, tk) by {
        let sn: int = if p.script is Some { 1 } else { 0 };
        let rn: int = if p.region is Some { 1 } else { 0 };
        if k == 0 {
            assert(ts[0] == lang_bytes(p.language));
            match p.language {
                None => {
                    assert(und_bytes().len() == 3);
                    assert(!crate::codec::is_ascii_digit(und_bytes()[1]));
                },
                Some(l) => {
                    assert(unpack8(l).len() >= 2);
                    assert(is_lower_alpha(unpack8(l)[1]));
                },
            }
        } else if p.script is Some && k == 1 {
            let u = unpack4(p.script->Some_0);
            assert(ts[1] == title_seq(u));
            assert(title_seq(u).len() == 4);
        } else if p.region is Some && k == 1 + sn {
            let u = unpack4(p.region->Some_0);
            assert(ts[k] == upper_seq(u));
            assert(upper_seq(u).len() >= 2);
            if u.len() == 2 {
                assert(upper_seq(u)[1] == upper_byte(u[1]));
                assert(is_lower_alpha(u[1]));
                assert(!crate::codec::is_ascii_digit(upper_byte(u[1])));
            }
        } else {
            let j = k - 1 - sn - rn;
            assert(ts[k] == variant_tokens(p.variants)[j]);
            assert(ts[k] == unpack8(p.variants[j]));
            assert(wf_variant(p.variants[j]));
            assert(unpack8(p.variants[j]).len() >= 4);
        }
    }
}

/// A displayed variant token fails the script and region grammars, passes
/// the variant grammar, and re-encodes to the value it displays.
proof fn lemma_variant_token_facts(v: u64)
    requires
        wf_variant(v),
    ensures
        !is_script_token(unpack8(v)),
        !is_region_token(unpack8(v)),
        spec_parse_variant(unpack8(v)) == Ok::<u64, ParserError>(v),
{
    let t = unpack8(v);
    assert(forall|i: int| 0 <= i < t.len() ==> is_lower_alnum(#[trigger] t[i]));
    if t.len() == 4 {
        assert(is_ascii_digit(t[0]));
        assert(!is_ascii_alpha(t[0]));
    }
    assert(is_variant_token(t));
    assert(forall|i: int| 0 <= i < t.len() ==> !(65 <= #[trigger] t[i] <= 90));
    lemma_lower_fixes(t);
}

/// The variant phase: from any variant position, a run of displayed
/// variant tokens is consumed in full and reproduces the stored list,
/// stopping exactly at the end of the run.
proof fn lemma_parse_vtail(
    toks: Seq<Seq<u8>>,
    i: int,
    position: int,
    language: Option<u64>,
    script: Option<u32>,
    region: Option<u32>,
    vs: Seq<u64>,
    k: int,
    ext: bool,
    tk: bool,
)
    requires
        1 <= position <= 3,
        0 <= i,
        0 <= k <= vs.len(),
        k == vs.len() ==> i >= toks.len(),
        i + (vs.len() - k) <= toks.len(),
        i + (vs.len() - k) < toks.len() ==> stop_token(toks[i + (vs.len() - k)], ext, tk),
        forall|j: int| 0 <= j < vs.len() - k ==> #[trigger] toks[i + j] == unpack8(vs[k + j]),
        sorted_strict(vs),
        forall|j: int| 0 <= j < vs.len() ==> wf_variant(#[trigger] vs[j]),
    ensures
        spec_parse_langid_rest(toks, i, position, language, script, region, vs.take(k), ext, tk)
            == Ok::<(LangIdParts, int), ParserError>(
            (
                LangIdParts { language, script, region, variants: vs },
                if i + (vs.len() - k) < toks.len() {
                    i + (vs.len() - k)
                } else {
                    toks.len() as int
                },
            ),
        ),
    decreases vs.len() - k,
{
    let n = i + (vs.len() - k);
    if k == vs.len() {
        assert(i >= toks.len());
        assert(vs.take(k) =~= vs);
    } else {
        let t = toks[i];
        assert(toks[i + 0] == unpack8(vs[k + 0]));
        assert(t == unpack8(vs[k]));
        lemma_variant_token_facts(vs[k]);
        assert(spec_parse_variant(t) == Ok::<u64, ParserError>(vs[k]));
        let acc = vs.take(k);
        assert(forall|j: int| 0 <= j < k ==> acc[j] == vs[j]);
        assert(forall|j: int| 0 <= j < k ==> #[trigger] acc[j] < vs[k]);
        lemma_insert_sorted_at(acc, vs[k], k);
        assert(insert_sorted_spec(acc, vs[k]) =~= vs.take(k + 1));
        if k + 1 == vs.len() && n < toks.len() {
            // the `go` step after the last variant stops before `toks[n]`
            assert(i + 1 == n);
            assert(stop_token(toks[n], ext, tk));
            assert(vs.take(k + 1) =~= vs);
        } else {
            if k + 1 < vs.len() {
                assert(toks[i + 1] == unpack8(vs[k + 1]));
                lemma_variant_token_facts(vs[k + 1]);
                assert(unpack8(vs[k + 1]).len() >= 4);
                assert(!stop_token(toks[i + 1], ext, tk));
            } else {
                assert(n >= toks.len());
                assert(i + 1 >= toks.len());
            }
            assert forall|j: int| 0 <= j < vs.len() - (k + 1) implies #[trigger] toks[i + 1 + j]
                == unpack8(vs[k + 1 + j]) by {
                assert(toks[i + (j + 1)] == unpack8(vs[k + (j + 1)]));
            }
            lemma_parse_vtail(toks, i + 1, 3, language, script, region, vs, k + 1, ext, tk);
        }
    }
}

/// Parsing a token stream that starts with the canonical tokens of a
/// well-formed identifier, followed by nothing or by a stop token,
/// consumes exactly the canonical tokens and gives the identifier back.
pub proof fn lemma_round_trip_tokens_at(toks: Seq<Seq<u8>>, p: LangIdParts, ext: bool, tk: bool)
    requires
        wf_parts(p),
        langid_tokens(p).len() <= toks.len(),
        forall|j: int|
            0 <= j < langid_tokens(p).len() ==> #[trigger] toks[j] == langid_tokens(p)[j],
        langid_tokens(p).len() < toks.len() ==> stop_token(
            toks[langid_tokens(p).len() as int],
            ext,
            tk,
        ),
    ensures
        spec_parse_langid_from(toks, 0, ext, tk) == Ok::<(LangIdParts, int), ParserError>(
            (
                p,
                if langid_tokens(p).len() < toks.len() {
                    langid_tokens(p).len() as int
                } else {
                    toks.len() as int
                },
            ),
        ),
{
    reveal_with_fuel(spec_parse_langid_rest, 5);
    reveal_with_fuel(spec_parse_langid_go, 5);
    let ts = langid_tokens(p);
    let n = ts.len() as int;
    let sn: int = if p.script is Some { 1 } else { 0 };
    let rn: int = if p.region is Some { 1 } else { 0 };
    let vts = variant_tokens(p.variants);
    assert(ts.len() == 1 + sn + rn + vts.len());
    lemma_langid_tokens_no_stop(p, ext, tk);
    assert(forall|j: int| 0 <= j < n ==> !stop_token(#[trigger] toks[j], ext, tk));

    // The language step.
    assert(toks[0] == ts[0] && ts[0] == lang_bytes(p.language));
    assert(spec_parse_language(ts[0]) == Ok::<Option<u64>, ParserError>(p.language)) by {
        match p.language {
            None => {
                let u = und_bytes();
                assert(u.len() == 3);
                assert(is_ascii_alpha(u[0]) && is_ascii_alpha(u[1]) && is_ascii_alpha(u[2]));
                assert(forall|i: int| 0 <= i < u.len() ==> is_ascii_alpha(#[trigger] u[i]));
                assert(is_language_token(u));
                assert(forall|i: int| 0 <= i < u.len() ==> !(65 <= #[trigger] u[i] <= 90));
                lemma_lower_fixes(u);
            },
            Some(l) => {
                let t = unpack8(l);
                assert(forall|i: int| 0 <= i < t.len() ==> is_lower_alpha(#[trigger] t[i]));
                assert(is_language_token(t));
                assert(forall|i: int| 0 <= i < t.len() ==> !(65 <= #[trigger] t[i] <= 90));
                lemma_lower_fixes(t);
                assert(t != und_bytes());
            },
        }
    }

    // Facts about the script token, when there is one.
    match p.script {
        None => {},
        Some(sc) => {
            let u = unpack4(sc);
            let st = title_seq(u);
            assert(toks[1] == ts[1] && ts[1] == st);
            assert(forall|i: int| 0 <= i < u.len() ==> is_lower_alpha(#[trigger] u[i]));
            assert forall|i: int| 0 <= i < st.len() implies is_ascii_alpha(#[trigger] st[i]) by {
                if i == 0 {
                    assert(st[i] == upper_byte(u[i]));
                }
            }
            assert(is_script_token(st));
            lemma_lower_title(u);
            assert(pack4(lower_seq(st)) == sc);
        },
    }

    // Facts about the region token, when there is one.
    match p.region {
        None => {},
        Some(rg) => {
            let u = unpack4(rg);
            let rt = upper_seq(u);
            assert(toks[1 + sn] == ts[1 + sn] && ts[1 + sn] == rt);
            assert(rt.len() == u.len());
            if u.len() == 2 {
                assert forall|i: int| 0 <= i < rt.len() implies is_ascii_alpha(
                    #[trigger] rt[i],
                ) by {
                    assert(rt[i] == upper_byte(u[i]));
                    assert(is_lower_alpha(u[i]));
                }
                assert(is_region_token(rt));
            } else {
                assert forall|i: int| 0 <= i < rt.len() implies is_ascii_digit(
                    #[trigger] rt[i],
                ) by {
                    assert(rt[i] == upper_byte(u[i]));
                    assert(is_ascii_digit(u[i]));
                }
                assert(is_region_token(rt));
            }
            assert(!is_script_token(rt));
            assert(forall|i: int| 0 <= i < u.len() ==> is_lower_alnum(#[trigger] u[i]));
            lemma_lower_upper(u);
            assert(pack4(lower_seq(rt)) == rg);
        },
    }

    // The variant suffix.
    let vstart = 1 + sn + rn;
    assert forall|j: int| 0 <= j < p.variants.len() implies #[trigger] toks[vstart + j]
        == unpack8(p.variants[j]) by {
        assert(toks[vstart + j] == ts[vstart + j]);
        assert(ts[vstart + j] == variant_tokens(p.variants)[j]);
    }
    assert(p.variants.take(0) =~= Seq::<u64>::empty());

    // After the last canonical token, the walk either stops before the
    // following stop token or runs to the end of the input; when variants
    // remain, the variant phase finishes the job.
    if p.variants.len() == 0 && n < toks.len() {
        assert(stop_token(toks[n], ext, tk));
        assert(Seq::<u64>::empty() =~= p.variants);
    } else {
        match (p.script, p.region) {
            (None, None) => {
                lemma_parse_vtail(toks, 1, 1, p.language, None, None, p.variants, 0, ext, tk);
            },
            (Some(sc), None) => {
                lemma_parse_vtail(toks, 2, 2, p.language, Some(sc), None, p.variants, 0, ext, tk);
            },
            (None, Some(rg)) => {
                lemma_parse_vtail(toks, 2, 3, p.language, None, Some(rg), p.variants, 0, ext, tk);
            },
            (Some(sc), Some(rg)) => {
                lemma_parse_vtail(
                    toks,
                    3,
                    3,
                    p.language,
                    Some(sc),
                    Some(rg),
                    p.variants,
                    0,
                    ext,
                    tk,
                );
            },
        }
    }
}

/// Parsing the canonical token list of a well-formed identifier gives the
/// identifier back, with every token consumed.
proof fn lemma_round_trip_tokens(p: LangIdParts)
    requires
        wf_parts(p),
    ensures
        spec_parse_langid_from(langid_tokens(p), 0, false, false) == Ok::<
            (LangIdParts, int),
            ParserError,
        >((p, langid_tokens(p).len() as int)),
{
    lemma_round_trip_tokens_at(langid_tokens(p), p, false, false);
}

// ---------------------------------------------------------------------------
// Round-trip: parse after serialize is the identity
// ---------------------------------------------------------------------------

/// Round-trip law: parsing the canonical text of any well-formed
/// identifier yields exactly that identifier.  Hence canonical strings
/// parse and re-serialize to themselves.
pub proof fn lemma_round_trip(p: LangIdParts)
    requires
        wf_parts(p),
    ensures
        spec_parse_langid_bytes(serialize_langid(p)) == Ok::<LangIdParts, ParserError>(p),
{
    lemma_serialize_is_join(p);
    lemma_langid_tokens_clean(p);
    lemma_split_join(langid_tokens(p));
    lemma_round_trip_tokens(p);
}

} // verus!

verus! {

// ---------------------------------------------------------------------------
// Every successful parse yields a well-formed value
// ---------------------------------------------------------------------------

/// Well-formedness of the parser state.
pub open spec fn wf_state(
    language: Option<u64>,
    script: Option<u32>,
    region: Option<u32>,
    variants: Seq<u64>,
) -> bool {
    &&& (language matches Some(l) ==> wf_language(l))
    &&& (script matches Some(s) ==> wf_script(s))
    &&& (region matches Some(r) ==> wf_region(r))
    &&& sorted_strict(variants)
    &&& forall|k: int| 0 <= k < variants.len() ==> wf_variant(#[trigger] variants[k])
}

proof fn lemma_spec_parse_wf_go(
    toks: Seq<Seq<u8>>,
    i: int,
    position: int,
    language: Option<u64>,
    script: Option<u32>,
    region: Option<u32>,
    variants: Seq<u64>,
    ext: bool,
    tk: bool,
)
    requires
        wf_state(language, script, region, variants),
    ensures
        spec_parse_langid_go(toks, i, position, language, script, region, variants, ext, tk)
            matches Ok(pair) ==> wf_parts(pair.0),
    decreases toks.len() - i, 0int,
{
    if i < 0 || i >= toks.len() {
    } else if i + 1 < toks.len() && stop_token(toks[i + 1], ext, tk) {
    } else {
        lemma_spec_parse_wf(toks, i + 1, position, language, script, region, variants, ext, tk);
    }
}

/// A parse that starts from a well-formed state ends, when it succeeds, in
/// a well-formed value.
pub proof fn lemma_spec_parse_wf(
    toks: Seq<Seq<u8>>,
    i: int,
    position: int,
    language: Option<u64>,
    script: Option<u32>,
    region: Option<u32>,
    variants: Seq<u64>,
    ext: bool,
    tk: bool,
)
    requires
        wf_state(language, script, region, variants),
    ensures
        spec_parse_langid_rest(toks, i, position, language, script, region, variants, ext, tk)
            matches Ok(pair) ==> wf_parts(pair.0),
    decreases toks.len() - i, 1int,
{
    if i < 0 || i >= toks.len() {
    } else {
        let t = toks[i];
        if position == 0 {
            match spec_parse_language(t) {
                Err(_) => {},
                Ok(l) => {
                    if l is Some {
                        crate::subtags::lemma_parse_language_wf(t);
                    }
                    lemma_spec_parse_wf_go(toks, i, 1, l, script, region, variants, ext, tk);
                },
            }
        } else if position == 1 {
            if is_script_token(t) {
                crate::subtags::lemma_parse_script_wf(t);
                lemma_spec_parse_wf_go(
                    toks,
                    i,
                    2,
                    language,
                    Some(pack4(lower_seq(t))),
                    region,
                    variants,
                    ext,
                    tk,
                );
            } else if is_region_token(t) {
                crate::subtags::lemma_parse_region_wf(t);
                lemma_spec_parse_wf_go(
                    toks,
                    i,
                    3,
                    language,
                    script,
                    Some(pack4(lower_seq(t))),
                    variants,
                    ext,
                    tk,
                );
            } else {
                match spec_parse_variant(t) {
                    Err(_) => {},
                    Ok(v) => {
                        crate::subtags::lemma_parse_variant_wf(t);
                        lemma_insert_sorted(variants, v);
                        crate::parser::lemma_insert_sorted_wf(variants, v);
                        lemma_spec_parse_wf_go(
                            toks,
                            i,
                            3,
                            language,
                            script,
                            region,
                            insert_sorted_spec(variants, v),
                            ext,
                            tk,
                        );
                    },
                }
            }
        } else if position == 2 {
            if is_region_token(t) {
                crate::subtags::lemma_parse_region_wf(t);
                lemma_spec_parse_wf_go(
                    toks,
                    i,
                    3,
                    language,
                    script,
                    Some(pack4(lower_seq(t))),
                    variants,
                    ext,
                    tk,
                );
            } else {
                match spec_parse_variant(t) {
                    Err(_) => {},
                    Ok(v) => {
                        crate::subtags::lemma_parse_variant_wf(t);
                        lemma_insert_sorted(variants, v);
                        crate::parser::lemma_insert_sorted_wf(variants, v);
                        lemma_spec_parse_wf_go(
                            toks,
                            i,
                            3,
                            language,
                            script,
                            region,
                            insert_sorted_spec(variants, v),
                            ext,
                            tk,
                        );
                    },
                }
            }
        } else {
            match spec_parse_variant(t) {
                Err(_) => {},
                Ok(v) => {
                    crate::subtags::lemma_parse_variant_wf(t);
                    lemma_insert_sorted(variants, v);
                    crate::parser::lemma_insert_sorted_wf(variants, v);
                    lemma_spec_parse_wf_go(
                        toks,
                        i,
                        position,
                        language,
                        script,
                        region,
                        insert_sorted_spec(variants, v),
                        ext,
                        tk,
                    );
                },
            }
        }
    }
}

/// What any successful parse of raw text returns is well formed.
pub proof fn lemma_parse_bytes_wf(s: Seq<u8>)
    ensures
        spec_parse_langid_bytes(s) matches Ok(p) ==> wf_parts(p),
{
    lemma_spec_parse_wf(
        split_tokens(s),
        0,
        0,
        None,
        None,
        None,
        Seq::empty(),
        false,
        false,
    );
}

// ---------------------------------------------------------------------------
// Idempotent canonicalization
// ---------------------------------------------------------------------------

/// Idempotence law: canonicalizing (parse, then serialize) any parseable
/// text gives a text that parses to the same value and canonicalizes to
/// itself.
pub proof fn lemma_canonicalize_idempotent(s: Seq<u8>)
    requires
        spec_parse_langid_bytes(s) is Ok,
    ensures
        ({
            let p = spec_parse_langid_bytes(s)->Ok_0;
            let c = serialize_langid(p);
            &&& spec_parse_langid_bytes(c) == Ok::<LangIdParts, ParserError>(p)
            &&& serialize_langid(spec_parse_langid_bytes(c)->Ok_0) == c
        }),
{
    lemma_parse_bytes_wf(s);
    let p = spec_parse_langid_bytes(s)->Ok_0;
    lemma_round_trip(p);
}

} // verus!

verus! {

// ---------------------------------------------------------------------------
// Case and separator insensitivity
// ---------------------------------------------------------------------------

/// Two input bytes that the parser cannot tell apart: same letter up to
/// case, or both separators (`-` and `_` are interchangeable).
pub open spec fn equiv_byte(a: u8, b: u8) -> bool {
    lower_byte(a) == lower_byte(b) || (is_sep(a) && is_sep(b))
}

/// Two inputs that differ only in letter case and separator choice.
pub open spec fn equiv_input(a: Seq<u8>, b: Seq<u8>) -> bool {
    a.len() == b.len() && forall|i: int| 0 <= i < a.len() ==> equiv_byte(#[trigger] a[i], b[i])
}

proof fn lemma_equiv_byte_classes(a: u8, b: u8)
    requires
        equiv_byte(a, b),
    ensures
        is_sep(a) == is_sep(b),
        is_ascii_alpha(a) == is_ascii_alpha(b),
        is_ascii_digit(a) == is_ascii_digit(b),
{
}

proof fn lemma_find_sep_equiv(a: Seq<u8>, b: Seq<u8>)
    requires
        equiv_input(a, b),
    ensures
        find_sep(a) == find_sep(b),
    decreases a.len(),
{
    if a.len() == 0 {
    } else {
        assert(equiv_byte(a[0], b[0]));
        lemma_equiv_byte_classes(a[0], b[0]);
        if !is_sep(a[0]) {
            assert forall|i: int| 0 <= i < a.drop_first().len() implies equiv_byte(
                #[trigger] a.drop_first()[i],
                b.drop_first()[i],
            ) by {
                assert(a.drop_first()[i] == a[i + 1]);
                assert(b.drop_first()[i] == b[i + 1]);
            }
            lemma_find_sep_equiv(a.drop_first(), b.drop_first());
        }
    }
}

/// Token lists that are pairwise equivalent.
pub open spec fn equiv_tokens(ta: Seq<Seq<u8>>, tb: Seq<Seq<u8>>) -> bool {
    ta.len() == tb.len() && forall|k: int| 0 <= k < ta.len() ==> equiv_input(
        #[trigger] ta[k],
        tb[k],
    )
}

proof fn lemma_split_equiv(a: Seq<u8>, b: Seq<u8>)
    requires
        equiv_input(a, b),
    ensures
        equiv_tokens(split_tokens(a), split_tokens(b)),
    decreases a.len(),
{
    lemma_find_sep_equiv(a, b);
    let i = find_sep(a) as int;
    crate::tokens::lemma_find_sep(a);
    if i >= a.len() {
        assert(split_tokens(a) == seq![a] && split_tokens(b) == seq![b]);
        assert(equiv_tokens(seq![a], seq![b])) by {
            assert(seq![a][0] == a && seq![b][0] == b);
        }
    } else {
        assert(equiv_input(a.take(i), b.take(i))) by {
            assert(forall|j: int| 0 <= j < i ==> a.take(i)[j] == a[j] && b.take(i)[j] == b[j]);
        }
        assert(equiv_input(a.skip(i + 1), b.skip(i + 1))) by {
            assert forall|j: int| 0 <= j < a.skip(i + 1).len() implies equiv_byte(
                #[trigger] a.skip(i + 1)[j],
                b.skip(i + 1)[j],
            ) by {
                assert(a.skip(i + 1)[j] == a[i + 1 + j]);
                assert(b.skip(i + 1)[j] == b[i + 1 + j]);
            }
        }
        lemma_split_equiv(a.skip(i + 1), b.skip(i + 1));
        let sa = split_tokens(a);
        let sb = split_tokens(b);
        assert(sa == seq![a.take(i)] + split_tokens(a.skip(i + 1)));
        assert(sb == seq![b.take(i)] + split_tokens(b.skip(i + 1)));
        assert forall|k: int| 0 <= k < sa.len() implies equiv_input(#[trigger] sa[k], sb[k]) by {
            if k == 0 {
                assert(sa[0] == a.take(i) && sb[0] == b.take(i));
            } else {
                assert(sa[k] == split_tokens(a.skip(i + 1))[k - 1]);
                assert(sb[k] == split_tokens(b.skip(i + 1))[k - 1]);
            }
        }
    }
}

/// Equivalent tokens lower-case to the same bytes and fall into the same
/// grammar classes.
proof fn lemma_token_equiv_facts(t1: Seq<u8>, t2: Seq<u8>)
    requires
        equiv_input(t1, t2),
        forall|i: int| 0 <= i < t1.len() ==> !is_sep(#[trigger] t1[i]) || !is_sep(t2[i]),
    ensures
        lower_seq(t1) == lower_seq(t2),
        is_language_token(t1) == is_language_token(t2),
        is_script_token(t1) == is_script_token(t2),
        is_region_token(t1) == is_region_token(t2),
        is_variant_token(t1) == is_variant_token(t2),
{
    assert forall|i: int| 0 <= i < t1.len() implies lower_byte(#[trigger] t1[i]) == lower_byte(
        t2[i],
    ) by {
        assert(equiv_byte(t1[i], t2[i]));
    }
    assert(lower_seq(t1) =~= lower_seq(t2));
    assert forall|i: int| 0 <= i < t1.len() implies is_ascii_alpha(#[trigger] t1[i])
        == is_ascii_alpha(t2[i]) && is_ascii_digit(t1[i]) == is_ascii_digit(t2[i]) by {
        lemma_equiv_byte_classes(t1[i], t2[i]);
    }
    if is_language_token(t1) || is_script_token(t1) || (is_region_token(t1) && t1.len() == 2) {
        assert forall|i: int| 0 <= i < t2.len() implies is_ascii_alpha(#[trigger] t2[i]) by {
            assert(is_ascii_alpha(t1[i]));
        }
    }
    if is_language_token(t2) || is_script_token(t2) || (is_region_token(t2) && t2.len() == 2) {
        assert forall|i: int| 0 <= i < t1.len() implies is_ascii_alpha(#[trigger] t1[i]) by {
            assert(is_ascii_alpha(t2[i]));
        }
    }
    if is_region_token(t1) && t1.len() == 3 {
        assert forall|i: int| 0 <= i < t2.len() implies is_ascii_digit(#[trigger] t2[i]) by {
            assert(is_ascii_digit(t1[i]));
        }
    }
    if is_region_token(t2) && t2.len() == 3 {
        assert forall|i: int| 0 <= i < t1.len() implies is_ascii_digit(#[trigger] t1[i]) by {
            assert(is_ascii_digit(t2[i]));
        }
    }
    if is_variant_token(t1) {
        assert forall|i: int| 0 <= i < t2.len() implies is_ascii_alphanumeric(
            #[trigger] t2[i],
        ) by {
            assert(is_ascii_alphanumeric(t1[i]));
        }
        assert(is_ascii_digit(t1[0]) == is_ascii_digit(t2[0]));
    }
    if is_variant_token(t2) {
        assert forall|i: int| 0 <= i < t1.len() implies is_ascii_alphanumeric(
            #[trigger] t1[i],
        ) by {
            assert(is_ascii_alphanumeric(t2[i]));
        }
        assert(is_ascii_digit(t1[0]) == is_ascii_digit(t2[0]));
    }
}

/// Tokens produced by splitting contain no separators at all, so the
/// assumption of `lemma_token_equiv_facts` holds of them.
proof fn lemma_split_tokens_no_sep(s: Seq<u8>)
    ensures
        forall|k: int, i: int|
            0 <= k < split_tokens(s).len() && 0 <= i < split_tokens(s)[k].len() ==> !is_sep(
                #[trigger] split_tokens(s)[k][i],
            ),
    decreases s.len(),
{
    let f = find_sep(s) as int;
    crate::tokens::lemma_find_sep(s);
    if f >= s.len() {
        assert(split_tokens(s) == seq![s]);
        assert forall|k: int, i: int|
            0 <= k < split_tokens(s).len() && 0 <= i < split_tokens(s)[k].len() implies !is_sep(
            #[trigger] split_tokens(s)[k][i],
        ) by {
            assert(split_tokens(s)[k] == s);
            assert(s[i] == s[i] && !is_sep(s[i]));
        }
    } else {
        lemma_split_tokens_no_sep(s.skip(f + 1));
        assert forall|k: int, i: int|
            0 <= k < split_tokens(s).len() && 0 <= i < split_tokens(s)[k].len() implies !is_sep(
            #[trigger] split_tokens(s)[k][i],
        ) by {
            if k == 0 {
                assert(split_tokens(s)[0] == s.take(f));
                assert(s.take(f)[i] == s[i]);
            } else {
                assert(split_tokens(s)[k] == split_tokens(s.skip(f + 1))[k - 1]);
            }
        }
    }
}

proof fn lemma_parse_equiv_go(
    ta: Seq<Seq<u8>>,
    tb: Seq<Seq<u8>>,
    i: int,
    position: int,
    language: Option<u64>,
    script: Option<u32>,
    region: Option<u32>,
    variants: Seq<u64>,
)
    requires
        equiv_tokens(ta, tb),
        forall|k: int, j: int|
            0 <= k < ta.len() && 0 <= j < ta[k].len() ==> !is_sep(#[trigger] ta[k][j]),
        forall|k: int, j: int|
            0 <= k < tb.len() && 0 <= j < tb[k].len() ==> !is_sep(#[trigger] tb[k][j]),
    ensures
        spec_parse_langid_go(ta, i, position, language, script, region, variants, false, false)
            == spec_parse_langid_go(
            tb,
            i,
            position,
            language,
            script,
            region,
            variants,
            false,
            false,
        ),
    decreases ta.len() - i, 0int,
{
    if i < 0 || i >= ta.len() {
    } else {
        lemma_parse_equiv_rest(ta, tb, i + 1, position, language, script, region, variants);
    }
}

proof fn lemma_parse_equiv_rest(
    ta: Seq<Seq<u8>>,
    tb: Seq<Seq<u8>>,
    i: int,
    position: int,
    language: Option<u64>,
    script: Option<u32>,
    region: Option<u32>,
    variants: Seq<u64>,
)
    requires
        equiv_tokens(ta, tb),
        forall|k: int, j: int|
            0 <= k < ta.len() && 0 <= j < ta[k].len() ==> !is_sep(#[trigger] ta[k][j]),
        forall|k: int, j: int|
            0 <= k < tb.len() && 0 <= j < tb[k].len() ==> !is_sep(#[trigger] tb[k][j]),
    ensures
        spec_parse_langid_rest(ta, i, position, language, script, region, variants, false, false)
            == spec_parse_langid_rest(
            tb,
            i,
            position,
            language,
            script,
            region,
            variants,
            false,
            false,
        ),
    decreases ta.len() - i, 1int,
{
    if i < 0 || i >= ta.len() {
    } else {
        let t1 = ta[i];
        let t2 = tb[i];
        assert(equiv_input(t1, t2));
        assert(forall|j: int| 0 <= j < t1.len() ==> !is_sep(#[trigger] t1[j]) || !is_sep(t2[j]));
        lemma_token_equiv_facts(t1, t2);
        if position == 0 {
            assert(spec_parse_language(t1) == spec_parse_language(t2));
            match spec_parse_language(t1) {
                Err(_) => {},
                Ok(l) => {
                    lemma_parse_equiv_go(ta, tb, i, 1, l, script, region, variants);
                },
            }
        } else if position == 1 {
            if is_script_token(t1) {
                lemma_parse_equiv_go(
                    ta,
                    tb,
                    i,
                    2,
                    language,
                    Some(pack4(lower_seq(t1))),
                    region,
                    variants,
                );
            } else if is_region_token(t1) {
                lemma_parse_equiv_go(
                    ta,
                    tb,
                    i,
                    3,
                    language,
                    script,
                    Some(pack4(lower_seq(t1))),
                    variants,
                );
            } else {
                assert(spec_parse_variant(t1) == spec_parse_variant(t2));
                match spec_parse_variant(t1) {
                    Err(_) => {},
                    Ok(v) => {
                        lemma_parse_equiv_go(
                            ta,
                            tb,
                            i,
                            3,
                            language,
                            script,
                            region,
                            insert_sorted_spec(variants, v),
                        );
                    },
                }
            }
        } else if position == 2 {
            if is_region_token(t1) {
                lemma_parse_equiv_go(
                    ta,
                    tb,
                    i,
                    3,
                    language,
                    script,
                    Some(pack4(lower_seq(t1))),
                    variants,
                );
            } else {
                assert(spec_parse_variant(t1) == spec_parse_variant(t2));
                match spec_parse_variant(t1) {
                    Err(_) => {},
                    Ok(v) => {
                        lemma_parse_equiv_go(
                            ta,
                            tb,
                            i,
                            3,
                            language,
                            script,
                            region,
                            insert_sorted_spec(variants, v),
                        );
                    },
                }
            }
        } else {
            assert(spec_parse_variant(t1) == spec_parse_variant(t2));
            match spec_parse_variant(t1) {
                Err(_) => {},
                Ok(v) => {
                    lemma_parse_equiv_go(
                        ta,
                        tb,
                        i,
                        position,
                        language,
                        script,
                        region,
                        insert_sorted_spec(variants, v),
                    );
                },
            }
        }
    }
}

/// Case- and separator-insensitivity law: inputs that differ only in
/// letter case or in the choice between `-` and `_` parse to the same
/// result, value and error alike.
pub proof fn lemma_parse_equiv(a: Seq<u8>, b: Seq<u8>)
    requires
        equiv_input(a, b),
    ensures
        spec_parse_langid_bytes(a) == spec_parse_langid_bytes(b),
{
    lemma_split_equiv(a, b);
    lemma_split_tokens_no_sep(a);
    lemma_split_tokens_no_sep(b);
    lemma_parse_equiv_rest(
        split_tokens(a),
        split_tokens(b),
        0,
        0,
        None,
        None,
        None,
        Seq::empty(),
    );
}

/// Upper-casing is one such equivalent rewriting, so parsing is
/// case-insensitive in the exact sense of the law above.
pub proof fn lemma_parse_upper(s: Seq<u8>)
    ensures
        spec_parse_langid_bytes(upper_seq(s)) == spec_parse_langid_bytes(s),
{
    assert forall|i: int| 0 <= i < upper_seq(s).len() implies equiv_byte(
        #[trigger] upper_seq(s)[i],
        s[i],
    ) by {
        assert(upper_seq(s)[i] == upper_byte(s[i]));
    }
    lemma_parse_equiv(upper_seq(s), s);
}

} // verus!

verus! {

/// Canonical-variant law: whatever the parser accepts carries its
/// variants sorted strictly ascending — hence deduplicated — whatever
/// order or repetition the input had; and every other field is a
/// well-formed stored encoding.
pub proof fn lemma_parse_variants_canonical(s: Seq<u8>)
    ensures
        spec_parse_langid_bytes(s) matches Ok(p) ==> sorted_strict(p.variants) && wf_parts(p),
{
    lemma_parse_bytes_wf(s);
}

} // verus!

verus! {

/// Locale round-trip, for locales without extensions: parsing the
/// canonical text of a well-formed identifier through the locale parser
/// (which stops at extension singletons) gives the identifier back and
/// leaves every extension section empty.  The extension sections
/// themselves are pinned by the parser and serializer contracts and
/// exercised by the test suite.
pub proof fn lemma_locale_round_trip_plain(p: crate::locale::LocaleParts)
    requires
        crate::locale::wf_locale(p),
        p.extensions == crate::extensions::empty_ext_parts(),
    ensures
        crate::locale::spec_parse_locale_bytes(crate::locale::serialize_locale(p)) == Ok::<
            crate::locale::LocaleParts,
            ParserError,
        >(p),
{
    assert(crate::extensions::serialize_extensions(p.extensions) =~= Seq::<u8>::empty());
    assert(crate::locale::serialize_locale(p) =~= serialize_langid(p.id));
    lemma_serialize_is_join(p.id);
    lemma_langid_tokens_clean(p.id);
    lemma_split_join(langid_tokens(p.id));
    lemma_round_trip_tokens_at(langid_tokens(p.id), p.id, true, false);
    let toks = split_tokens(serialize_langid(p.id));
    assert(crate::extensions::spec_parse_extensions_at(
        toks,
        toks.len() as int,
        crate::extensions::empty_ext_parts(),
    ) == Ok::<(crate::extensions::ExtParts, int), ParserError>(
        (crate::extensions::empty_ext_parts(), toks.len() as int),
    ));
}

} // verus!
