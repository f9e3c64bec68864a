//! The structured language identifier and its canonical serialization.

use vstd::prelude::*;
use crate::codec::{
    title_seq, upper_seq, unpack8, unpack4, unpack8_bytes, unpack4_bytes, upper_byte,
    byte_to_upper, is_ascii_digit, string_from_ascii, all_ascii, chars_of,
};
use crate::subtags::{
    und_bytes, wf_language, wf_script, wf_region, wf_variant, is_lower_alpha, is_lower_alnum,
};

verus! {

// ---------------------------------------------------------------------------
// Mathematical model
// ---------------------------------------------------------------------------

/// Strictly ascending, hence duplicate-free.
pub open spec fn sorted_strict(s: Seq<u64>) -> bool {
    forall|i: int, j: int| 0 <= i < j < s.len() ==> s[i] < s[j]
}

/// The abstract content of a language identifier: packed encodings of the
/// three positional fields plus the canonical (sorted, deduplicated)
/// variant list.  An absent language stands for `und`.
#[verifier::ext_equal]
pub struct LangIdParts {
    pub language: Option<u64>,
    pub script: Option<u32>,
    pub region: Option<u32>,
    pub variants: Seq<u64>,
}

/// Every stored field is a well-formed lower-case encoding of its kind and
/// the variants are in strictly ascending encoding order.
pub open spec fn wf_parts(p: LangIdParts) -> bool {
    &&& (p.language matches Some(l) ==> wf_language(l))
    &&& (p.script matches Some(s) ==> wf_script(s))
    &&& (p.region matches Some(r) ==> wf_region(r))
    &&& sorted_strict(p.variants)
    &&& forall|k: int| 0 <= k < p.variants.len() ==> wf_variant(#[trigger] p.variants[k])
}

/// A parsed Unicode language identifier.
///
/// Subtags are held as packed integers; `variants` is always sorted and
/// deduplicated.  `language` of `None` means the `und` language.  All public
/// constructors establish `wf` and all methods preserve it.
#[derive(Debug, Clone)]
pub struct LanguageIdentifier {
    pub language: Option<u64>,
    pub script: Option<u32>,
    pub region: Option<u32>,
    pub variants: Vec<u64>,
}

impl LanguageIdentifier {
    pub open spec fn parts(&self) -> LangIdParts {
        LangIdParts {
            language: self.language,
            script: self.script,
            region: self.region,
            variants: self.variants@,
        }
    }

    pub open spec fn wf(&self) -> bool {
        wf_parts(self.parts())
    }
}

// ---------------------------------------------------------------------------
// Canonical serialization, as a spec function
// ---------------------------------------------------------------------------

/// Displayed language: the stored lower-case bytes, or `und` when absent.
pub open spec fn lang_bytes(lang: Option<u64>) -> Seq<u8> {
    match lang {
        None => und_bytes(),
        Some(v) => unpack8(v),
    }
}

/// Displayed variants: each prefixed with a hyphen, in stored order.
pub open spec fn variants_bytes(vs: Seq<u64>) -> Seq<u8>
    decreases vs.len(),
{
    if vs.len() == 0 {
        Seq::empty()
    } else {
        seq![45u8] + unpack8(vs[0]) + variants_bytes(vs.drop_first())
    }
}

/// Canonical text of a language identifier: language lower-case, script
/// title-case, region upper-case, variants lower-case, joined by hyphens.
pub open spec fn serialize_langid(p: LangIdParts) -> Seq<u8> {
    lang_bytes(p.language) + (match p.script {
        None => Seq::<u8>::empty(),
        Some(v) => seq![45u8] + title_seq(unpack4(v)),
    }) + (match p.region {
        None => Seq::<u8>::empty(),
        Some(v) => seq![45u8] + upper_seq(unpack4(v)),
    }) + variants_bytes(p.variants)
}

pub proof fn lemma_variants_bytes_push(vs: Seq<u64>, v: u64)
    ensures
        variants_bytes(vs.push(v)) == variants_bytes(vs) + seq![45u8] + unpack8(v),
    decreases vs.len(),
{
    let p = vs.push(v);
    if vs.len() == 0 {
        assert(p.len() == 1);
        assert(p[0] == v);
        assert(p.drop_first() =~= Seq::<u64>::empty());
        assert(variants_bytes(p) == seq![45u8] + unpack8(p[0]) + variants_bytes(p.drop_first()));
        assert(variants_bytes(Seq::<u64>::empty()) == Seq::<u8>::empty());
        assert(variants_bytes(p) =~= variants_bytes(vs) + seq![45u8] + unpack8(v));
    } else {
        assert(p.drop_first() =~= vs.drop_first().push(v));
        lemma_variants_bytes_push(vs.drop_first(), v);
        assert(p.len() != 0);
        assert(p[0] == vs[0]);
        assert(variants_bytes(p) == seq![45u8] + unpack8(p[0]) + variants_bytes(p.drop_first()));
        assert(variants_bytes(vs) == seq![45u8] + unpack8(vs[0]) + variants_bytes(vs.drop_first()));
        assert(variants_bytes(p) =~= variants_bytes(vs) + seq![45u8] + unpack8(v));
    }
}

pub proof fn lemma_variants_bytes_ascii(vs: Seq<u64>)
    requires
        forall|k: int| 0 <= k < vs.len() ==> wf_variant(#[trigger] vs[k]),
    ensures
        all_ascii(variants_bytes(vs)),
    decreases vs.len(),
{
    if vs.len() > 0 {
        assert(wf_variant(vs[0]));
        assert(forall|i: int|
            0 <= i < unpack8(vs[0]).len() ==> is_lower_alnum(#[trigger] unpack8(vs[0])[i]));
        lemma_variants_bytes_ascii(vs.drop_first());
        let whole = seq![45u8] + unpack8(vs[0]) + variants_bytes(vs.drop_first());
        assert forall|i: int| 0 <= i < whole.len() implies whole[i] < 128 by {
            if 1 <= i < 1 + unpack8(vs[0]).len() {
                assert(whole[i] == unpack8(vs[0])[i - 1]);
            } else if i >= 1 + unpack8(vs[0]).len() {
                assert(whole[i] == variants_bytes(vs.drop_first())[i - 1 - unpack8(
                    vs[0],
                ).len()]);
            }
        }
    }
}

pub proof fn lemma_serialize_langid_ascii(p: LangIdParts)
    requires
        wf_parts(p),
    ensures
        all_ascii(serialize_langid(p)),
{
    let lb = lang_bytes(p.language);
    assert(all_ascii(lb)) by {
        match p.language {
            None => {
                assert(lb == und_bytes());
                assert(forall|i: int| 0 <= i < lb.len() ==> #[trigger] lb[i] < 128);
            },
            Some(v) => {
                assert(forall|i: int| 0 <= i < lb.len() ==> is_lower_alpha(#[trigger] lb[i]));
            },
        }
    }
    let sb = match p.script {
        None => Seq::<u8>::empty(),
        Some(v) => seq![45u8] + title_seq(unpack4(v)),
    };
    assert(all_ascii(sb)) by {
        match p.script {
            None => {},
            Some(v) => {
                assert(forall|i: int|
                    0 <= i < unpack4(v).len() ==> is_lower_alpha(#[trigger] unpack4(v)[i]));
                assert forall|i: int| 0 <= i < sb.len() implies sb[i] < 128 by {
                    if i >= 1 {
                        assert(sb[i] == title_seq(unpack4(v))[i - 1]);
                    }
                }
            },
        }
    }
    let rb = match p.region {
        None => Seq::<u8>::empty(),
        Some(v) => seq![45u8] + upper_seq(unpack4(v)),
    };
    assert(all_ascii(rb)) by {
        match p.region {
            None => {},
            Some(v) => {
                assert forall|i: int| 0 <= i < rb.len() implies rb[i] < 128 by {
                    if i >= 1 {
                        assert(rb[i] == upper_byte(unpack4(v)[i - 1]));
                    }
                }
            },
        }
    }
    lemma_variants_bytes_ascii(p.variants);
    let vb = variants_bytes(p.variants);
    let whole = lb + sb + rb + vb;
    assert forall|i: int| 0 <= i < whole.len() implies whole[i] < 128 by {
        if i < lb.len() {
            assert(whole[i] == lb[i]);
        } else if i < lb.len() + sb.len() {
            assert(whole[i] == sb[i - lb.len()]);
        } else if i < lb.len() + sb.len() + rb.len() {
            assert(whole[i] == rb[i - lb.len() - sb.len()]);
        } else {
            assert(whole[i] == vb[i - lb.len() - sb.len() - rb.len()]);
        }
    }
}

// ---------------------------------------------------------------------------
// Executable serialization
// ---------------------------------------------------------------------------

pub fn push_all(out: &mut Vec<u8>, xs: &Vec<u8>)
    ensures
        final(out)@ == old(out)@ + xs@,
{
    let mut k: usize = 0;
    while k < xs.len()
        invariant
            k <= xs@.len(),
            out@ =~= old(out)@ + xs@.take(k as int),
        decreases xs@.len() - k,
    {
        out.push(xs[k]);
        assert(out@ =~= old(out)@ + xs@.take(k + 1));
        k = k + 1;
    }
    assert(out@ =~= old(out)@ + xs@);
}

/// Appends `xs` with the first byte upper-cased: title case for scripts.
pub fn push_title(out: &mut Vec<u8>, xs: &Vec<u8>)
    ensures
        final(out)@ == old(out)@ + title_seq(xs@),
{
    let mut k: usize = 0;
    while k < xs.len()
        invariant
            k <= xs@.len(),
            out@ =~= old(out)@ + title_seq(xs@).take(k as int),
        decreases xs@.len() - k,
    {
        if k == 0 {
            out.push(byte_to_upper(xs[0]));
        } else {
            out.push(xs[k]);
        }
        assert(out@ =~= old(out)@ + title_seq(xs@).take(k + 1));
        k = k + 1;
    }
    assert(out@ =~= old(out)@ + title_seq(xs@));
}

/// Appends `xs` fully upper-cased: display form for regions.
pub fn push_upper(out: &mut Vec<u8>, xs: &Vec<u8>)
    ensures
        final(out)@ == old(out)@ + upper_seq(xs@),
{
    let mut k: usize = 0;
    while k < xs.len()
        invariant
            k <= xs@.len(),
            out@ =~= old(out)@ + upper_seq(xs@).take(k as int),
        decreases xs@.len() - k,
    {
        out.push(byte_to_upper(xs[k]));
        assert(out@ =~= old(out)@ + upper_seq(xs@).take(k + 1));
        k = k + 1;
    }
    assert(out@ =~= old(out)@ + upper_seq(xs@));
}

/// Appends each encoded entry of `vs`, hyphen-prefixed: the canonical
/// form of variant lists, attribute lists, value lists and private tags.
pub fn push_list8(out: &mut Vec<u8>, vs: &Vec<u64>)
    ensures
        final(out)@ == old(out)@ + variants_bytes(vs@),
{
    let ghost base = out@;
    let mut k: usize = 0;
    while k < vs.len()
        invariant
            k <= vs@.len(),
            out@ =~= base + variants_bytes(vs@.take(k as int)),
        decreases vs@.len() - k,
    {
        out.push(45);
        let b = unpack8_bytes(vs[k]);
        push_all(out, &b);
        proof {
            assert(vs@.take(k + 1) =~= vs@.take(k as int).push(vs@[k as int]));
            lemma_variants_bytes_push(vs@.take(k as int), vs@[k as int]);
        }
        k = k + 1;
    }
    proof {
        assert(vs@.take(vs@.len() as int) =~= vs@);
    }
}

impl LanguageIdentifier {
    /// Appends the canonical text of this identifier to `out`.
    pub fn write_bytes(&self, out: &mut Vec<u8>)
        ensures
            final(out)@ == old(out)@ + serialize_langid(self.parts()),
    {
        let ghost base = out@;
        match self.language {
            None => {
                out.push(117);
                out.push(110);
                out.push(100);
                assert(out@ =~= base + lang_bytes(self.language));
            },
            Some(v) => {
                let b = unpack8_bytes(v);
                push_all(out, &b);
            },
        }
        let ghost after_lang = out@;
        if let Some(sc) = self.script {
            out.push(45);
            let b = unpack4_bytes(sc);
            push_title(out, &b);
            assert(out@ =~= after_lang + (seq![45u8] + title_seq(unpack4(sc))));
        }
        let ghost after_script = out@;
        if let Some(rg) = self.region {
            out.push(45);
            let b = unpack4_bytes(rg);
            push_upper(out, &b);
            assert(out@ =~= after_script + (seq![45u8] + upper_seq(unpack4(rg))));
        }
        push_list8(out, &self.variants);
        proof {
            assert(out@ =~= base + serialize_langid(self.parts()));
        }
    }

    /// The canonical text of this identifier.
    pub fn to_string(&self) -> (r: String)
        requires
            self.wf(),
        ensures
            r@ == chars_of(serialize_langid(self.parts())),
    {
        let mut out: Vec<u8> = Vec::new();
        self.write_bytes(&mut out);
        proof {
            lemma_serialize_langid_ascii(self.parts());
        }
        string_from_ascii(out)
    }
}

} // verus!

use vstd::string::StringSliceAdditionalSpecFns;
use crate::errors::{LanguageIdentifierError, ParserError};
use crate::subtags::{
    spec_parse_language, spec_parse_script, spec_parse_region, spec_parse_variant,
    parse_language_subtag, parse_script_subtag, parse_region_subtag, parse_variant_subtag,
    lemma_parse_language_wf, lemma_parse_script_wf, lemma_parse_region_wf, lemma_parse_variant_wf,
};
use crate::parser::{
    insert_sorted, insert_sorted_spec, lemma_insert_sorted, lemma_insert_sorted_wf,
    parse_language_identifier, spec_parse_langid_bytes,
};

verus! {

// ---------------------------------------------------------------------------
// Field-wise construction
// ---------------------------------------------------------------------------

/// The byte views of a list of string slices.
pub open spec fn str_views(ts: Seq<&str>) -> Seq<Seq<u8>> {
    ts.map_values(|t: &str| t.spec_bytes())
}

/// Folds variant tokens into a sorted, deduplicated list; the first bad
/// token is the error.
pub open spec fn spec_collect_variants(ts: Seq<Seq<u8>>, acc: Seq<u64>) -> Result<
    Seq<u64>,
    ParserError,
>
    decreases ts.len(),
{
    if ts.len() == 0 {
        Ok(acc)
    } else {
        match spec_parse_variant(ts[0]) {
            Err(e) => Err(e),
            Ok(v) => spec_collect_variants(ts.drop_first(), insert_sorted_spec(acc, v)),
        }
    }
}

/// What `from_parts` returns: each given field parsed by its own grammar,
/// fields checked in order language, script, region, variants.
pub open spec fn spec_from_parts(
    language: Option<Seq<u8>>,
    script: Option<Seq<u8>>,
    region: Option<Seq<u8>>,
    variants: Seq<Seq<u8>>,
) -> Result<LangIdParts, ParserError> {
    let lr = match language {
        None => Ok(None),
        Some(t) => spec_parse_language(t),
    };
    match lr {
        Err(e) => Err(e),
        Ok(l) => {
            let sr = match script {
                None => Ok(None),
                Some(t) => match spec_parse_script(t) {
                    Err(e) => Err(e),
                    Ok(v) => Ok(Some(v)),
                },
            };
            match sr {
                Err(e) => Err(e),
                Ok(sc) => {
                    let rr = match region {
                        None => Ok(None),
                        Some(t) => match spec_parse_region(t) {
                            Err(e) => Err(e),
                            Ok(v) => Ok(Some(v)),
                        },
                    };
                    match rr {
                        Err(e) => Err(e),
                        Ok(rg) => match spec_collect_variants(variants, Seq::empty()) {
                            Err(e) => Err(e),
                            Ok(vs) => Ok(
                                LangIdParts { language: l, script: sc, region: rg, variants: vs },
                            ),
                        },
                    }
                },
            }
        },
    }
}

/// Collects validated variants from string slices into `out`.
fn collect_variants(variants: &[&str], out: &mut Vec<u64>) -> (r: Result<(), ParserError>)
    requires
        old(out)@.len() == 0,
    ensures
        ({
            let sp = spec_collect_variants(str_views(variants@), Seq::empty());
            match r {
                Ok(()) => sp matches Ok(vs) && vs == final(out)@ && sorted_strict(final(out)@)
                    && (forall|k: int|
                    0 <= k < final(out)@.len() ==> crate::subtags::wf_variant(
                        #[trigger] final(out)@[k],
                    )),
                Err(e) => sp == Err::<Seq<u64>, ParserError>(e),
            }
        }),
{
    let ghost target = spec_collect_variants(str_views(variants@), Seq::empty());
    let mut k: usize = 0;
    proof {
        assert(str_views(variants@).skip(0) =~= str_views(variants@));
        assert(out@ =~= Seq::<u64>::empty());
    }
    while k < variants.len()
        invariant
            k <= variants@.len(),
            target == spec_collect_variants(str_views(variants@), Seq::empty()),
            target == spec_collect_variants(str_views(variants@).skip(k as int), out@),
            sorted_strict(out@),
            forall|j: int|
                0 <= j < out@.len() ==> crate::subtags::wf_variant(#[trigger] out@[j]),
            out@.len() <= k,
        decreases variants@.len() - k,
    {
        let t: &str = *vstd::slice::slice_index_get(variants, k);
        proof {
            assert(str_views(variants@).skip(k as int)[0] == t.spec_bytes());
        }
        match parse_variant_subtag(t) {
            Err(e) => {
                return Err(e);
            },
            Ok(v) => {
                proof {
                    lemma_parse_variant_wf(t.spec_bytes());
                    lemma_insert_sorted(out@, v);
                    lemma_insert_sorted_wf(out@, v);
                    assert(str_views(variants@).skip(k as int).drop_first() =~= str_views(
                        variants@,
                    ).skip(k + 1));
                }
                insert_sorted(out, v);
            },
        }
        k = k + 1;
    }
    proof {
        assert(str_views(variants@).skip(variants@.len() as int) =~= Seq::<Seq<u8>>::empty());
    }
    Ok(())
}

/// Compares two encoding vectors for equality of contents.
pub fn vec_u64_eq(a: &Vec<u64>, b: &Vec<u64>) -> (r: bool)
    ensures
        r == (a@ == b@),
{
    if a.len() != b.len() {
        return false;
    }
    let mut k: usize = 0;
    while k < a.len()
        invariant
            k <= a@.len(),
            a@.len() == b@.len(),
            forall|j: int| 0 <= j < k ==> a@[j] == b@[j],
        decreases a@.len() - k,
    {
        if a[k] != b[k] {
            return false;
        }
        k = k + 1;
    }
    proof {
        assert(a@ =~= b@);
    }
    true
}

impl LanguageIdentifier {
    /// Builds an identifier from optional field strings; every given field
    /// is validated by its subtag grammar, and the variants come out sorted
    /// and deduplicated.
    pub fn from_parts(
        language: Option<&str>,
        script: Option<&str>,
        region: Option<&str>,
        variants: &[&str],
    ) -> (r: Result<Self, LanguageIdentifierError>)
        ensures
            ({
                let sp = spec_from_parts(
                    match language {
                        None => None,
                        Some(s) => Some(s.spec_bytes()),
                    },
                    match script {
                        None => None,
                        Some(s) => Some(s.spec_bytes()),
                    },
                    match region {
                        None => None,
                        Some(s) => Some(s.spec_bytes()),
                    },
                    str_views(variants@),
                );
                match r {
                    Ok(id) => sp matches Ok(p) && p == id.parts() && id.wf(),
                    Err(LanguageIdentifierError::ParserError(e)) => sp == Err::<
                        LangIdParts,
                        ParserError,
                    >(e),
                    Err(LanguageIdentifierError::Unknown) => false,
                }
            }),
    {
        let lang: Option<u64> = match language {
            None => None,
            Some(s) => {
                match parse_language_subtag(s) {
                    Err(e) => {
                        return Err(LanguageIdentifierError::ParserError(e));
                    },
                    Ok(l) => {
                        proof {
                            if l is Some {
                                lemma_parse_language_wf(s.spec_bytes());
                            }
                        }
                        l
                    },
                }
            },
        };
        let sc: Option<u32> = match script {
            None => None,
            Some(s) => {
                match parse_script_subtag(s) {
                    Err(e) => {
                        return Err(LanguageIdentifierError::ParserError(e));
                    },
                    Ok(v) => {
                        proof {
                            lemma_parse_script_wf(s.spec_bytes());
                        }
                        Some(v)
                    },
                }
            },
        };
        let rg: Option<u32> = match region {
            None => None,
            Some(s) => {
                match parse_region_subtag(s) {
                    Err(e) => {
                        return Err(LanguageIdentifierError::ParserError(e));
                    },
                    Ok(v) => {
                        proof {
                            lemma_parse_region_wf(s.spec_bytes());
                        }
                        Some(v)
                    },
                }
            },
        };
        let mut vs: Vec<u64> = Vec::new();
        match collect_variants(variants, &mut vs) {
            Err(e) => Err(LanguageIdentifierError::ParserError(e)),
            Ok(()) => Ok(LanguageIdentifier { language: lang, script: sc, region: rg, variants: vs }),
        }
    }

    /// The raw packed fields, for storage; rebuild with
    /// `from_raw_parts_unchecked`.
    pub fn into_raw_parts(self) -> (r: (Option<u64>, Option<u32>, Option<u32>, Vec<u64>))
        ensures
            r.0 == self.language,
            r.1 == self.script,
            r.2 == self.region,
            r.3@ == self.variants@,
    {
        let LanguageIdentifier { language, script, region, variants } = self;
        (language, script, region, variants)
    }

    /// The trusted constructor for already-validated raw parts: it skips
    /// validation, so the caller owes exactly the well-formedness that
    /// `into_raw_parts` of a well-formed identifier provides.
    pub fn from_raw_parts_unchecked(
        language: Option<u64>,
        script: Option<u32>,
        region: Option<u32>,
        variants: Vec<u64>,
    ) -> (r: Self)
        requires
            wf_parts(LangIdParts { language, script, region, variants: variants@ }),
        ensures
            r.language == language,
            r.script == script,
            r.region == region,
            r.variants@ == variants@,
            r.wf(),
    {
        LanguageIdentifier { language, script, region, variants }
    }

    /// The displayed language subtag, `und` when absent.
    pub fn get_language(&self) -> (r: String)
        requires
            self.wf(),
        ensures
            r@ == chars_of(lang_bytes(self.language)),
    {
        let mut out: Vec<u8> = Vec::new();
        match self.language {
            None => {
                out.push(117);
                out.push(110);
                out.push(100);
                assert(out@ =~= und_bytes());
            },
            Some(v) => {
                let b = unpack8_bytes(v);
                push_all(&mut out, &b);
            },
        }
        proof {
            assert forall|i: int| 0 <= i < out@.len() implies #[trigger] out@[i] < 128 by {
                match self.language {
                    None => {},
                    Some(v) => {
                        assert(is_lower_alpha(unpack8(v)[i]));
                    },
                }
            }
        }
        string_from_ascii(out)
    }
}

} // verus!

verus! {

// ---------------------------------------------------------------------------
// Accessors and mutators
// ---------------------------------------------------------------------------

impl LanguageIdentifier {
    /// The displayed script subtag, title-cased.
    pub fn get_script(&self) -> (r: Option<String>)
        requires
            self.wf(),
        ensures
            match self.script {
                None => r is None,
                Some(v) => r matches Some(s) && s@ == chars_of(title_seq(unpack4(v))),
            },
    {
        match self.script {
            None => None,
            Some(v) => {
                let b = unpack4_bytes(v);
                let mut out: Vec<u8> = Vec::new();
                push_title(&mut out, &b);
                proof {
                    assert forall|i: int| 0 <= i < out@.len() implies #[trigger] out@[i]
                        < 128 by {
                        assert(is_lower_alpha(unpack4(v)[i]));
                        assert(out@[i] == title_seq(unpack4(v))[i]);
                    }
                }
                Some(string_from_ascii(out))
            },
        }
    }

    /// The displayed region subtag: upper case when alphabetic, digits
    /// unchanged.
    pub fn get_region(&self) -> (r: Option<String>)
        requires
            self.wf(),
        ensures
            match self.region {
                None => r is None,
                Some(v) => r matches Some(s) && s@ == chars_of(upper_seq(unpack4(v))),
            },
    {
        match self.region {
            None => None,
            Some(v) => {
                let b = unpack4_bytes(v);
                let mut out: Vec<u8> = Vec::new();
                push_upper(&mut out, &b);
                proof {
                    assert forall|i: int| 0 <= i < out@.len() implies #[trigger] out@[i]
                        < 128 by {
                        assert(out@[i] == upper_byte(unpack4(v)[i]));
                        assert(is_lower_alpha(unpack4(v)[i]) || is_ascii_digit(unpack4(v)[i]));
                    }
                }
                Some(string_from_ascii(out))
            },
        }
    }

    /// The variant subtags, in canonical order.
    pub fn get_variants(&self) -> (r: Vec<String>)
        requires
            self.wf(),
        ensures
            r@.len() == self.variants@.len(),
            forall|k: int|
                0 <= k < r@.len() ==> (#[trigger] r@[k])@ == chars_of(
                    unpack8(self.variants@[k]),
                ),
    {
        let mut r: Vec<String> = Vec::new();
        let mut k: usize = 0;
        while k < self.variants.len()
            invariant
                k <= self.variants@.len(),
                self.wf(),
                r@.len() == k,
                forall|j: int|
                    0 <= j < k ==> (#[trigger] r@[j])@ == chars_of(unpack8(self.variants@[j])),
            decreases self.variants@.len() - k,
        {
            let v = self.variants[k];
            let b = unpack8_bytes(v);
            proof {
                assert(wf_variant(self.variants@[k as int]));
                assert forall|i: int| 0 <= i < b@.len() implies #[trigger] b@[i] < 128 by {
                    assert(is_lower_alnum(unpack8(v)[i]));
                }
            }
            r.push(string_from_ascii(b));
            k = k + 1;
        }
        r
    }

    /// Replaces the language subtag after validating it; `None` and `und`
    /// both clear it.  On failure the identifier is unchanged.
    pub fn set_language(&mut self, language: Option<&str>) -> (r: Result<
        (),
        LanguageIdentifierError,
    >)
        requires
            old(self).wf(),
        ensures
            final(self).wf(),
            final(self).script == old(self).script,
            final(self).region == old(self).region,
            final(self).variants@ == old(self).variants@,
            match language {
                None => r is Ok && final(self).language is None,
                Some(s) => match spec_parse_language(s.spec_bytes()) {
                    Ok(l) => r is Ok && final(self).language == l,
                    Err(e) => r == Err::<(), LanguageIdentifierError>(
                        LanguageIdentifierError::ParserError(e),
                    ) && final(self).language == old(self).language,
                },
            },
    {
        match language {
            None => {
                self.language = None;
                Ok(())
            },
            Some(s) => {
                match parse_language_subtag(s) {
                    Err(e) => Err(LanguageIdentifierError::ParserError(e)),
                    Ok(l) => {
                        proof {
                            if l is Some {
                                lemma_parse_language_wf(s.spec_bytes());
                            }
                        }
                        self.language = l;
                        Ok(())
                    },
                }
            },
        }
    }

    /// Replaces the script subtag after validating it; on failure the
    /// identifier is unchanged.
    pub fn set_script(&mut self, script: Option<&str>) -> (r: Result<(), LanguageIdentifierError>)
        requires
            old(self).wf(),
        ensures
            final(self).wf(),
            final(self).language == old(self).language,
            final(self).region == old(self).region,
            final(self).variants@ == old(self).variants@,
            match script {
                None => r is Ok && final(self).script is None,
                Some(s) => match spec_parse_script(s.spec_bytes()) {
                    Ok(v) => r is Ok && final(self).script == Some(v),
                    Err(e) => r == Err::<(), LanguageIdentifierError>(
                        LanguageIdentifierError::ParserError(e),
                    ) && final(self).script == old(self).script,
                },
            },
    {
        match script {
            None => {
                self.script = None;
                Ok(())
            },
            Some(s) => {
                match parse_script_subtag(s) {
                    Err(e) => Err(LanguageIdentifierError::ParserError(e)),
                    Ok(v) => {
                        proof {
                            lemma_parse_script_wf(s.spec_bytes());
                        }
                        self.script = Some(v);
                        Ok(())
                    },
                }
            },
        }
    }

    /// Replaces the region subtag after validating it; on failure the
    /// identifier is unchanged.
    pub fn set_region(&mut self, region: Option<&str>) -> (r: Result<(), LanguageIdentifierError>)
        requires
            old(self).wf(),
        ensures
            final(self).wf(),
            final(self).language == old(self).language,
            final(self).script == old(self).script,
            final(self).variants@ == old(self).variants@,
            match region {
                None => r is Ok && final(self).region is None,
                Some(s) => match spec_parse_region(s.spec_bytes()) {
                    Ok(v) => r is Ok && final(self).region == Some(v),
                    Err(e) => r == Err::<(), LanguageIdentifierError>(
                        LanguageIdentifierError::ParserError(e),
                    ) && final(self).region == old(self).region,
                },
            },
    {
        match region {
            None => {
                self.region = None;
                Ok(())
            },
            Some(s) => {
                match parse_region_subtag(s) {
                    Err(e) => Err(LanguageIdentifierError::ParserError(e)),
                    Ok(v) => {
                        proof {
                            lemma_parse_region_wf(s.spec_bytes());
                        }
                        self.region = Some(v);
                        Ok(())
                    },
                }
            },
        }
    }

    /// Replaces the variant list after validating every entry; the stored
    /// list is sorted and deduplicated.  On failure the identifier is
    /// unchanged.
    pub fn set_variants(&mut self, variants: &[&str]) -> (r: Result<(), LanguageIdentifierError>)
        requires
            old(self).wf(),
        ensures
            final(self).wf(),
            final(self).language == old(self).language,
            final(self).script == old(self).script,
            final(self).region == old(self).region,
            match spec_collect_variants(str_views(variants@), Seq::empty()) {
                Ok(vs) => r is Ok && final(self).variants@ == vs,
                Err(e) => r == Err::<(), LanguageIdentifierError>(
                    LanguageIdentifierError::ParserError(e),
                ) && final(self).variants@ == old(self).variants@,
            },
    {
        let mut vs: Vec<u64> = Vec::new();
        match collect_variants(variants, &mut vs) {
            Err(e) => Err(LanguageIdentifierError::ParserError(e)),
            Ok(()) => {
                self.variants = vs;
                Ok(())
            },
        }
    }
}

// ---------------------------------------------------------------------------
// Range matching
// ---------------------------------------------------------------------------

/// Field-wise equality where a missing field on a side flagged as a range
/// matches anything on the other side.
pub open spec fn langid_matches(
    a: LangIdParts,
    b: LangIdParts,
    a_range: bool,
    b_range: bool,
) -> bool {
    &&& ((a.language is None && a_range) || (b.language is None && b_range) || a.language
        == b.language)
    &&& ((a.script is None && a_range) || (b.script is None && b_range) || a.script == b.script)
    &&& ((a.region is None && a_range) || (b.region is None && b_range) || a.region == b.region)
    &&& ((a.variants.len() == 0 && a_range) || (b.variants.len() == 0 && b_range) || a.variants
        == b.variants)
}

impl LanguageIdentifier {
    /// Compares two identifiers field by field; a side flagged as a range
    /// treats each of its missing fields as a wildcard.
    pub fn matches(&self, other: &LanguageIdentifier, self_as_range: bool, other_as_range: bool) -> (r:
        bool)
        ensures
            r == langid_matches(self.parts(), other.parts(), self_as_range, other_as_range),
    {
        let lang_ok = (self.language.is_none() && self_as_range) || (other.language.is_none()
            && other_as_range) || (match (self.language, other.language) {
            (None, None) => true,
            (Some(a), Some(b)) => a == b,
            _ => false,
        });
        let script_ok = (self.script.is_none() && self_as_range) || (other.script.is_none()
            && other_as_range) || (match (self.script, other.script) {
            (None, None) => true,
            (Some(a), Some(b)) => a == b,
            _ => false,
        });
        let region_ok = (self.region.is_none() && self_as_range) || (other.region.is_none()
            && other_as_range) || (match (self.region, other.region) {
            (None, None) => true,
            (Some(a), Some(b)) => a == b,
            _ => false,
        });
        let variants_ok = (self.variants.len() == 0 && self_as_range) || (other.variants.len() == 0
            && other_as_range) || vec_u64_eq(&self.variants, &other.variants);
        lang_ok && script_ok && region_ok && variants_ok
    }
}

// ---------------------------------------------------------------------------
// Canonicalization and well-formedness of raw text
// ---------------------------------------------------------------------------

/// Parses, then serializes: the canonical text of a well-formed input, or
/// the parse error.
pub fn canonicalize(input: &str) -> (r: Result<String, LanguageIdentifierError>)
    ensures
        ({
            let sp = spec_parse_langid_bytes(input.spec_bytes());
            match r {
                Ok(out) => sp matches Ok(p) && out@ == chars_of(serialize_langid(p)),
                Err(LanguageIdentifierError::ParserError(e)) => sp == Err::<
                    LangIdParts,
                    ParserError,
                >(e),
                Err(LanguageIdentifierError::Unknown) => false,
            }
        }),
{
    match parse_language_identifier(input) {
        Ok(id) => Ok(id.to_string()),
        Err(e) => Err(LanguageIdentifierError::ParserError(e)),
    }
}

impl LanguageIdentifier {
    /// Parses, then serializes: the canonical text of a well-formed input.
    pub fn canonicalize_str(input: &str) -> (r: Result<String, LanguageIdentifierError>)
        ensures
            ({
                let sp = spec_parse_langid_bytes(input.spec_bytes());
                match r {
                    Ok(out) => sp matches Ok(p) && out@ == chars_of(serialize_langid(p)),
                    Err(LanguageIdentifierError::ParserError(e)) => sp == Err::<
                        LangIdParts,
                        ParserError,
                    >(e),
                    Err(LanguageIdentifierError::Unknown) => false,
                }
            }),
    {
        canonicalize(input)
    }

    /// Whether the input parses as a language identifier.
    pub fn is_str_well_formed(input: &str) -> (r: bool)
        ensures
            r == (spec_parse_langid_bytes(input.spec_bytes()) is Ok),
    {
        match parse_language_identifier(input) {
            Ok(_) => true,
            Err(_) => false,
        }
    }
}

// ---------------------------------------------------------------------------
// Standard trait impls
// ---------------------------------------------------------------------------

impl Default for LanguageIdentifier {
    /// The empty identifier: the `und` language and nothing else.
    fn default() -> (r: Self)
        ensures
            r.language is None,
            r.script is None,
            r.region is None,
            r.variants@ == Seq::<u64>::empty(),
            r.wf(),
    {
        LanguageIdentifier { language: None, script: None, region: None, variants: Vec::new() }
    }
}

impl PartialEq for LanguageIdentifier {
    /// Equality is field-wise; encodings are equal exactly when the
    /// canonical subtag strings are equal.
    fn eq(&self, other: &Self) -> (r: bool) {
        let lang_eq = match (self.language, other.language) {
            (None, None) => true,
            (Some(a), Some(b)) => a == b,
            _ => false,
        };
        let script_eq = match (self.script, other.script) {
            (None, None) => true,
            (Some(a), Some(b)) => a == b,
            _ => false,
        };
        let region_eq = match (self.region, other.region) {
            (None, None) => true,
            (Some(a), Some(b)) => a == b,
            _ => false,
        };
        lang_eq && script_eq && region_eq && vec_u64_eq(&self.variants, &other.variants)
    }
}

impl vstd::std_specs::cmp::PartialEqSpecImpl for LanguageIdentifier {
    open spec fn obeys_eq_spec() -> bool {
        true
    }

    open spec fn eq_spec(&self, other: &Self) -> bool {
        self.language == other.language && self.script == other.script && self.region
            == other.region && self.variants@ == other.variants@
    }
}

impl core::str::FromStr for LanguageIdentifier {
    type Err = LanguageIdentifierError;

    fn from_str(source: &str) -> Result<Self, Self::Err> {
        match parse_language_identifier(source) {
            Ok(id) => Ok(id),
            Err(e) => Err(LanguageIdentifierError::ParserError(e)),
        }
    }
}

} // verus!
