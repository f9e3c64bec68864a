//! The locale model: a language identifier together with its extension
//! sections, with combined parsing, matching and serialization.

use vstd::prelude::*;
use vstd::string::StringSliceAdditionalSpecFns;
use crate::codec::{all_ascii, chars_of, string_from_ascii, unpack8};
use crate::errors::{LanguageIdentifierError, LocaleError, ParserError};
use crate::extensions::{
    ExtensionsMap, ExtParts, empty_ext_parts, serialize_extensions, spec_parse_extensions_at,
    wf_extensions, kvs_bytes, kvs_views, lemma_kvs_bytes_ascii, wf_attribute, wf_private_tag,
};
use crate::extensions::unicode::serialize_unicode;
use crate::extensions::transform::serialize_transform;
use crate::extensions::private::serialize_private;
use crate::langid::{
    LangIdParts, LanguageIdentifier, langid_matches, lang_bytes, serialize_langid, str_views,
    spec_from_parts, variants_bytes, wf_parts, lemma_serialize_langid_ascii,
};
use crate::parser::{spec_parse_langid_from, parse_langid_tokens};
use crate::subtags::is_lower_alnum;
use crate::tokens::{split_tokens, tokenize};

verus! {

/// The abstract content of a locale.
#[verifier::ext_equal]
pub struct LocaleParts {
    pub id: LangIdParts,
    pub extensions: ExtParts,
}

pub open spec fn wf_locale(p: LocaleParts) -> bool {
    wf_parts(p.id) && wf_extensions(p.extensions)
}

/// A Unicode locale: a language identifier plus extension sections.
#[derive(Debug, Clone)]
pub struct Locale {
    pub id: LanguageIdentifier,
    pub extensions: ExtensionsMap,
}

impl Locale {
    pub open spec fn parts(&self) -> LocaleParts {
        LocaleParts { id: self.id.parts(), extensions: self.extensions.parts() }
    }

    pub open spec fn wf(&self) -> bool {
        wf_locale(self.parts())
    }
}

// ---------------------------------------------------------------------------
// Parsing
// ---------------------------------------------------------------------------

/// What parsing a locale returns: the language identifier consumes a
/// prefix of the tokens, stopping before the first singleton, and the
/// extension dispatcher takes the rest.  Any language-identifier error is
/// reported as `InvalidLanguage`.
pub open spec fn spec_parse_locale_bytes(s: Seq<u8>) -> Result<LocaleParts, ParserError> {
    let toks = split_tokens(s);
    match spec_parse_langid_from(toks, 0, true, false) {
        Err(_) => Err(ParserError::InvalidLanguage),
        Ok(pair) => {
            if 0 <= pair.1 <= toks.len() {
                match spec_parse_extensions_at(toks, pair.1, empty_ext_parts()) {
                    Err(e) => Err(e),
                    Ok(epair) => Ok(LocaleParts { id: pair.0, extensions: epair.0 }),
                }
            } else {
                Err(ParserError::InvalidLanguage)
            }
        },
    }
}

/// Parses a locale out of raw text.
pub fn parse_locale(t: &str) -> (r: Result<Locale, ParserError>)
    ensures
        ({
            let sp = spec_parse_locale_bytes(t.spec_bytes());
            match r {
                Ok(loc) => sp matches Ok(p) && p == loc.parts() && loc.wf(),
                Err(e) => sp == Err::<LocaleParts, ParserError>(e),
            }
        }),
{
    let bytes = t.as_bytes_vec();
    parse_locale_inner(&bytes)
}

/// Parses a locale out of raw bytes.
fn parse_locale_inner(bytes: &Vec<u8>) -> (r: Result<Locale, ParserError>)
    ensures
        ({
            let sp = spec_parse_locale_bytes(bytes@);
            match r {
                Ok(loc) => sp matches Ok(p) && p == loc.parts() && loc.wf(),
                Err(e) => sp == Err::<LocaleParts, ParserError>(e),
            }
        }),
{
    let toks = tokenize(bytes);
    match parse_langid_tokens(&toks, 0, true, false) {
        Err(_) => Err(ParserError::InvalidLanguage),
        Ok(pair) => {
            let (id, end) = pair;
            match ExtensionsMap::try_from_tokens(&toks, end) {
                Err(e) => Err(e),
                Ok(extensions) => Ok(Locale { id, extensions }),
            }
        },
    }
}

impl Locale {
    /// Parses a locale out of a byte slice.
    pub fn from_bytes(v: &[u8]) -> (r: Result<Self, LocaleError>)
        ensures
            ({
                let sp = spec_parse_locale_bytes(v@);
                match r {
                    Ok(loc) => sp matches Ok(p) && p == loc.parts() && loc.wf(),
                    Err(LocaleError::ParserError(e)) => sp == Err::<LocaleParts, ParserError>(e),
                    _ => false,
                }
            }),
    {
        let bytes = vstd::slice::slice_to_vec(v);
        match parse_locale_inner(&bytes) {
            Ok(loc) => Ok(loc),
            Err(e) => Err(LocaleError::ParserError(e)),
        }
    }

    /// Builds a locale from optional field strings plus ready extensions.
    pub fn from_parts(
        language: Option<&str>,
        script: Option<&str>,
        region: Option<&str>,
        variants: &[&str],
        extensions: Option<ExtensionsMap>,
    ) -> (r: Result<Self, LocaleError>)
        requires
            extensions matches Some(e) ==> e.wf(),
        ensures
            ({
                let sp = spec_from_parts(
                    match language {
                        None => None,
                        Some(s) => Some(s.spec_bytes()),
                    },
                    match script {
                        None => None,
                        Some(s) => Some(s.spec_bytes()),
                    },
                    match region {
                        None => None,
                        Some(s) => Some(s.spec_bytes()),
                    },
                    str_views(variants@),
                );
                match r {
                    Ok(loc) => {
                        &&& sp matches Ok(p) && p == loc.parts().id
                        &&& loc.wf()
                        &&& match extensions {
                            None => loc.parts().extensions =~= empty_ext_parts(),
                            Some(e) => loc.parts().extensions == e.parts(),
                        }
                    },
                    Err(LocaleError::LanguageIdentifierError(
                        LanguageIdentifierError::ParserError(e),
                    )) => sp == Err::<LangIdParts, ParserError>(e),
                    _ => false,
                }
            }),
    {
        match LanguageIdentifier::from_parts(language, script, region, variants) {
            Err(e) => Err(LocaleError::LanguageIdentifierError(e)),
            Ok(id) => {
                let ext = match extensions {
                    None => {
                        let d = ExtensionsMap::default();
                        proof {
                            assert(kvs_views(Seq::<(u32, Vec<u64>)>::empty()) =~= Seq::<
                                (u32, Seq<u64>),
                            >::empty());
                            assert(d.parts() =~= empty_ext_parts());
                        }
                        d
                    },
                    Some(e) => e,
                };
                Ok(Locale { id, extensions: ext })
            },
        }
    }

    /// The trusted constructor for already-validated raw parts.
    pub fn from_raw_parts_unchecked(
        language: Option<u64>,
        script: Option<u32>,
        region: Option<u32>,
        variants: Vec<u64>,
        extensions: ExtensionsMap,
    ) -> (r: Self)
        requires
            wf_parts(LangIdParts { language, script, region, variants: variants@ }),
            extensions.wf(),
        ensures
            r.parts().id == (LangIdParts { language, script, region, variants: variants@ }),
            r.parts().extensions == extensions.parts(),
            r.wf(),
    {
        Locale {
            id: LanguageIdentifier::from_raw_parts_unchecked(language, script, region, variants),
            extensions,
        }
    }

    /// The raw fields plus the canonical extension text, for storage.
    pub fn into_parts(self) -> (r: (Option<u64>, Option<u32>, Option<u32>, Vec<u64>, String))
        requires
            self.wf(),
        ensures
            r.0 == self.id.language,
            r.1 == self.id.script,
            r.2 == self.id.region,
            r.3@ == self.id.variants@,
            r.4@ == chars_of(serialize_extensions(self.extensions.parts())),
    {
        proof {
            lemma_serialize_extensions_ascii(self.extensions.parts());
        }
        let mut out: Vec<u8> = Vec::new();
        self.extensions.write_bytes(&mut out);
        let ext = string_from_ascii(out);
        let (language, script, region, variants) = self.id.into_raw_parts();
        (language, script, region, variants, ext)
    }

    /// Compares two locales with optional wildcarding of missing fields;
    /// locales carrying private-use tags never match.
    pub fn matches(&self, other: &Locale, self_as_range: bool, other_as_range: bool) -> (r: bool)
        ensures
            r == (self.extensions.private.tags@.len() == 0 && other.extensions.private.tags@.len()
                == 0 && langid_matches(
                self.id.parts(),
                other.id.parts(),
                self_as_range,
                other_as_range,
            )),
    {
        if !self.extensions.private.is_empty() || !other.extensions.private.is_empty() {
            return false;
        }
        self.id.matches(&other.id, self_as_range, other_as_range)
    }
}

// ---------------------------------------------------------------------------
// Serialization
// ---------------------------------------------------------------------------

/// Canonical text of a locale: the identifier, then the extensions.
pub open spec fn serialize_locale(p: LocaleParts) -> Seq<u8> {
    serialize_langid(p.id) + serialize_extensions(p.extensions)
}

/// Hyphen-prefixed lists of lower-case alphanumeric entries are ASCII.
pub proof fn lemma_list8_bytes_ascii(vs: Seq<u64>)
    requires
        forall|k: int, i: int|
            0 <= k < vs.len() && 0 <= i < unpack8(vs[k]).len() ==> is_lower_alnum(
                #[trigger] unpack8(vs[k])[i],
            ),
    ensures
        all_ascii(variants_bytes(vs)),
    decreases vs.len(),
{
    if vs.len() > 0 {
        assert(forall|i: int|
            0 <= i < unpack8(vs[0]).len() ==> is_lower_alnum(#[trigger] unpack8(vs[0])[i]));
        assert forall|k: int, i: int|
            0 <= k < vs.drop_first().len() && 0 <= i < unpack8(vs.drop_first()[k]).len() implies
            is_lower_alnum(#[trigger] unpack8(vs.drop_first()[k])[i]) by {
            assert(vs.drop_first()[k] == vs[k + 1]);
        }
        lemma_list8_bytes_ascii(vs.drop_first());
        let whole = seq![45u8] + unpack8(vs[0]) + variants_bytes(vs.drop_first());
        assert forall|i: int| 0 <= i < whole.len() implies #[trigger] whole[i] < 128 by {
            if i == 0 {
            } else if i < 1 + unpack8(vs[0]).len() {
                assert(whole[i] == unpack8(vs[0])[i - 1]);
            } else {
                assert(whole[i] == variants_bytes(vs.drop_first())[i - 1 - unpack8(
                    vs[0],
                ).len()]);
            }
        }
    }
}

/// The canonical extension text of well-formed sections is ASCII.
pub proof fn lemma_serialize_extensions_ascii(e: ExtParts)
    requires
        wf_extensions(e),
    ensures
        all_ascii(serialize_extensions(e)),
{
    let tb = serialize_transform(e.transform);
    let ub = serialize_unicode(e.unicode);
    let pb = serialize_private(e.private);
    assert(all_ascii(tb)) by {
        if !(e.transform.tlang is None && e.transform.tfields.len() == 0) {
            let lb = match e.transform.tlang {
                None => Seq::<u8>::empty(),
                Some(p) => seq![45u8] + serialize_langid(p),
            };
            assert(all_ascii(lb)) by {
                match e.transform.tlang {
                    None => {},
                    Some(p) => {
                        lemma_serialize_langid_ascii(p);
                        assert forall|i: int| 0 <= i < lb.len() implies #[trigger] lb[i]
                            < 128 by {
                            if i >= 1 {
                                assert(lb[i] == serialize_langid(p)[i - 1]);
                            }
                        }
                    },
                }
            }
            lemma_kvs_bytes_ascii(e.transform.tfields);
            let kb = kvs_bytes(e.transform.tfields);
            assert forall|i: int| 0 <= i < tb.len() implies #[trigger] tb[i] < 128 by {
                if i >= 2 {
                    if i < 2 + lb.len() {
                        assert(tb[i] == lb[i - 2]);
                    } else {
                        assert(tb[i] == kb[i - 2 - lb.len()]);
                    }
                }
            }
        }
    }
    assert(all_ascii(ub)) by {
        if !(e.unicode.attributes.len() == 0 && e.unicode.keywords.len() == 0) {
            assert forall|k: int, i: int|
                0 <= k < e.unicode.attributes.len() && 0 <= i < unpack8(
                    e.unicode.attributes[k],
                ).len() implies is_lower_alnum(#[trigger] unpack8(e.unicode.attributes[k])[i]) by {
                assert(wf_attribute(e.unicode.attributes[k]));
            }
            lemma_list8_bytes_ascii(e.unicode.attributes);
            lemma_kvs_bytes_ascii(e.unicode.keywords);
            let ab = variants_bytes(e.unicode.attributes);
            let kb = kvs_bytes(e.unicode.keywords);
            assert forall|i: int| 0 <= i < ub.len() implies #[trigger] ub[i] < 128 by {
                if i >= 2 {
                    if i < 2 + ab.len() {
                        assert(ub[i] == ab[i - 2]);
                    } else {
                        assert(ub[i] == kb[i - 2 - ab.len()]);
                    }
                }
            }
        }
    }
    assert(all_ascii(pb)) by {
        if e.private.tags.len() != 0 {
            assert forall|k: int, i: int|
                0 <= k < e.private.tags.len() && 0 <= i < unpack8(e.private.tags[k]).len() implies
                is_lower_alnum(#[trigger] unpack8(e.private.tags[k])[i]) by {
                assert(wf_private_tag(e.private.tags[k]));
            }
            lemma_list8_bytes_ascii(e.private.tags);
            let gb = variants_bytes(e.private.tags);
            assert forall|i: int| 0 <= i < pb.len() implies #[trigger] pb[i] < 128 by {
                if i >= 2 {
                    assert(pb[i] == gb[i - 2]);
                }
            }
        }
    }
    assert forall|i: int| 0 <= i < serialize_extensions(e).len() implies
        #[trigger] serialize_extensions(e)[i] < 128 by {
        let whole = tb + ub + pb;
        if i < tb.len() {
            assert(whole[i] == tb[i]);
        } else if i < tb.len() + ub.len() {
            assert(whole[i] == ub[i - tb.len()]);
        } else {
            assert(whole[i] == pb[i - tb.len() - ub.len()]);
        }
    }
}

impl Locale {
    /// The canonical text of this locale.
    pub fn to_string(&self) -> (r: String)
        requires
            self.wf(),
        ensures
            r@ == chars_of(serialize_locale(self.parts())),
    {
        let mut out: Vec<u8> = Vec::new();
        self.id.write_bytes(&mut out);
        self.extensions.write_bytes(&mut out);
        proof {
            lemma_serialize_langid_ascii(self.parts().id);
            lemma_serialize_extensions_ascii(self.parts().extensions);
            let lb = serialize_langid(self.parts().id);
            let eb = serialize_extensions(self.parts().extensions);
            assert forall|i: int| 0 <= i < out@.len() implies #[trigger] out@[i] < 128 by {
                if i < lb.len() {
                    assert(out@[i] == lb[i]);
                } else {
                    assert(out@[i] == eb[i - lb.len()]);
                }
            }
        }
        string_from_ascii(out)
    }
}

/// Parses, then serializes: the canonical text of a well-formed locale
/// input, normalizing case, separators and extension order.
pub fn canonicalize(input: &str) -> (r: Result<String, LocaleError>)
    ensures
        ({
            let sp = spec_parse_locale_bytes(input.spec_bytes());
            match r {
                Ok(out) => sp matches Ok(p) && out@ == chars_of(serialize_locale(p)),
                Err(LocaleError::ParserError(e)) => sp == Err::<LocaleParts, ParserError>(e),
                _ => false,
            }
        }),
{
    match parse_locale(input) {
        Ok(loc) => Ok(loc.to_string()),
        Err(e) => Err(LocaleError::ParserError(e)),
    }
}

// ---------------------------------------------------------------------------
// Standard trait impls
// ---------------------------------------------------------------------------

impl Default for Locale {
    /// The `und` locale with no extensions.
    fn default() -> (r: Self)
        ensures
            r.id.language is None,
            r.id.script is None,
            r.id.region is None,
            r.id.variants@ == Seq::<u64>::empty(),
            r.extensions.unicode.keywords@.len() == 0,
            r.extensions.unicode.attributes@.len() == 0,
            r.extensions.transform.tlang is None,
            r.extensions.transform.tfields@.len() == 0,
            r.extensions.private.tags@.len() == 0,
            r.wf(),
    {
        Locale { id: LanguageIdentifier::default(), extensions: ExtensionsMap::default() }
    }
}

impl PartialEq for Locale {
    fn eq(&self, other: &Self) -> (r: bool) {
        self.id == other.id && self.extensions == other.extensions
    }
}

impl vstd::std_specs::cmp::PartialEqSpecImpl for Locale {
    open spec fn obeys_eq_spec() -> bool {
        true
    }

    open spec fn eq_spec(&self, other: &Self) -> bool {
        &&& self.id.language == other.id.language
        &&& self.id.script == other.id.script
        &&& self.id.region == other.id.region
        &&& self.id.variants@ == other.id.variants@
        &&& self.extensions.unicode.attributes@ == other.extensions.unicode.attributes@
        &&& kvs_views(self.extensions.unicode.keywords@) == kvs_views(
            other.extensions.unicode.keywords@,
        )
        &&& crate::extensions::transform::tlang_parts(&self.extensions.transform)
            == crate::extensions::transform::tlang_parts(&other.extensions.transform)
        &&& kvs_views(self.extensions.transform.tfields@) == kvs_views(
            other.extensions.transform.tfields@,
        )
        &&& self.extensions.private.tags@ == other.extensions.private.tags@
    }
}

impl From<LanguageIdentifier> for Locale {
    /// A locale with the given identifier and no extensions.
    fn from(id: LanguageIdentifier) -> Self {
        Locale { id, extensions: ExtensionsMap::default() }
    }
}

impl vstd::std_specs::convert::FromSpecImpl<LanguageIdentifier> for Locale {
    // An empty extension container cannot be written as one spec value, so
    // this conversion claims nothing; `Locale::from_parts` carries the
    // contract for building locales.
    open spec fn obeys_from_spec() -> bool {
        false
    }

    open spec fn from_spec(id: LanguageIdentifier) -> Self {
        Locale { id, extensions: arbitrary() }
    }
}

impl From<Locale> for LanguageIdentifier {
    /// Drops the extensions.
    fn from(value: Locale) -> Self {
        value.id
    }
}

impl vstd::std_specs::convert::FromSpecImpl<Locale> for LanguageIdentifier {
    open spec fn obeys_from_spec() -> bool {
        true
    }

    open spec fn from_spec(value: Locale) -> Self {
        value.id
    }
}

impl core::str::FromStr for Locale {
    type Err = LocaleError;

    fn from_str(source: &str) -> Result<Self, Self::Err> {
        match parse_locale(source) {
            Ok(loc) => Ok(loc),
            Err(e) => Err(LocaleError::ParserError(e)),
        }
    }
}

} // verus!
