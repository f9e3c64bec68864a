//! The Unicode (`u`) extension section: attributes and keyed keywords.

use vstd::prelude::*;
use vstd::string::StringSliceAdditionalSpecFns;
use crate::codec::{
    chars_of, string_from_ascii, unpack4, unpack8, unpack4_bytes, unpack8_bytes, lower_seq, pack8,
};
use crate::errors::{LocaleError, ParserError};
use crate::extensions::{
    is_type_token, kvs_bytes, kvs_get, kvs_get_vec, kvs_insert, kvs_insert_vec, kvs_remove,
    kvs_remove_vec, kvs_views, lemma_kvs_insert_wf, lemma_kvs_remove_sorted,
    lemma_parse_attribute_wf, lemma_parse_key_wf, lemma_parse_type_wf, parse_attribute_bytes,
    parse_type_bytes, parse_ukey_bytes, push_kvs, spec_parse_attribute, spec_parse_type,
    spec_parse_ukey, wf_attribute, wf_key, wf_kvs, wf_type,
};
use crate::langid::{push_list8, sorted_strict, variants_bytes, vec_u64_eq};
use crate::parser::{insert_sorted, insert_sorted_spec, lemma_insert_sorted};
use crate::subtags::is_lower_alnum;
use crate::tokens::token_views;

verus! {

/// The abstract content of the unicode section: sorted, deduplicated
/// attributes and an ascending keyword map.
#[verifier::ext_equal]
pub struct UniParts {
    pub attributes: Seq<u64>,
    pub keywords: Seq<(u32, Seq<u64>)>,
}

pub open spec fn wf_unicode(u: UniParts) -> bool {
    &&& sorted_strict(u.attributes)
    &&& forall|k: int| 0 <= k < u.attributes.len() ==> wf_attribute(#[trigger] u.attributes[k])
    &&& wf_kvs(u.keywords)
}

/// The unicode extension data of a locale: attributes kept sorted and
/// deduplicated, keywords kept in ascending key order.
#[derive(Debug, Clone)]
pub struct UnicodeExtensionList {
    pub keywords: Vec<(u32, Vec<u64>)>,
    pub attributes: Vec<u64>,
}

impl UnicodeExtensionList {
    pub open spec fn parts(&self) -> UniParts {
        UniParts { attributes: self.attributes@, keywords: kvs_views(self.keywords@) }
    }

    pub open spec fn wf(&self) -> bool {
        wf_unicode(self.parts())
    }

    /// Whether the section holds no keywords and no attributes.
    pub fn is_empty(&self) -> (r: bool)
        ensures
            r == (self.keywords@.len() == 0 && self.attributes@.len() == 0),
    {
        self.keywords.len() == 0 && self.attributes.len() == 0
    }
}

// ---------------------------------------------------------------------------
// Parsing the unicode section
// ---------------------------------------------------------------------------

/// Closes the open keyword, if any.
pub open spec fn uni_flush(
    kws: Seq<(u32, Seq<u64>)>,
    cur: Option<u32>,
    vals: Seq<u64>,
) -> Seq<(u32, Seq<u64>)> {
    match cur {
        None => kws,
        Some(k) => kvs_insert(kws, k, vals),
    }
}

/// The unicode state machine: a two-character token is a keyword key;
/// once a key is open, three-to-eight-character alphanumerics are its
/// values (`true` elided); before any key they are attributes; anything
/// else ends the section, unconsumed.
pub open spec fn spec_parse_unicode_at(
    toks: Seq<Seq<u8>>,
    i: int,
    attrs: Seq<u64>,
    kws: Seq<(u32, Seq<u64>)>,
    cur: Option<u32>,
    vals: Seq<u64>,
) -> Result<(UniParts, int), ParserError>
    decreases toks.len() - i,
{
    if i < 0 || i >= toks.len() {
        Ok((UniParts { attributes: attrs, keywords: uni_flush(kws, cur, vals) }, toks.len() as int))
    } else {
        let t = toks[i];
        if t.len() == 2 {
            match spec_parse_ukey(t) {
                Err(e) => Err(e),
                Ok(k) => spec_parse_unicode_at(
                    toks,
                    i + 1,
                    attrs,
                    uni_flush(kws, cur, vals),
                    Some(k),
                    Seq::empty(),
                ),
            }
        } else if cur is Some && is_type_token(t) {
            match spec_parse_type(t) {
                Err(e) => Err(e),
                Ok(None) => spec_parse_unicode_at(toks, i + 1, attrs, kws, cur, vals),
                Ok(Some(v)) => spec_parse_unicode_at(toks, i + 1, attrs, kws, cur, vals.push(v)),
            }
        } else if is_type_token(t) {
            spec_parse_unicode_at(
                toks,
                i + 1,
                insert_sorted_spec(attrs, pack8(lower_seq(t))),
                kws,
                cur,
                vals,
            )
        } else {
            Ok((UniParts { attributes: attrs, keywords: uni_flush(kws, cur, vals) }, i))
        }
    }
}

pub open spec fn spec_parse_unicode(toks: Seq<Seq<u8>>, i: int) -> Result<
    (UniParts, int),
    ParserError,
> {
    spec_parse_unicode_at(toks, i, Seq::empty(), Seq::empty(), None, Seq::empty())
}

proof fn lemma_insert_sorted_wf_attr(s: Seq<u64>, v: u64)
    requires
        forall|k: int| 0 <= k < s.len() ==> wf_attribute(#[trigger] s[k]),
        wf_attribute(v),
        sorted_strict(s),
    ensures
        forall|k: int|
            0 <= k < insert_sorted_spec(s, v).len() ==> wf_attribute(
                #[trigger] insert_sorted_spec(s, v)[k],
            ),
{
    lemma_insert_sorted(s, v);
    let r = insert_sorted_spec(s, v);
    assert forall|k: int| 0 <= k < r.len() implies wf_attribute(r[k]) by {
        assert(r.contains(r[k]));
        if r[k] != v {
            let i = choose|i: int| 0 <= i < s.len() && s[i] == r[k];
            assert(wf_attribute(s[i]));
        }
    }
}

proof fn lemma_uni_flush_wf(
    kws: Seq<(u32, Seq<u64>)>,
    cur: Option<u32>,
    vals: Seq<u64>,
)
    requires
        wf_kvs(kws),
        cur matches Some(k) ==> wf_key(k),
        forall|v: int| 0 <= v < vals.len() ==> wf_type(#[trigger] vals[v]),
    ensures
        wf_kvs(uni_flush(kws, cur, vals)),
{
    match cur {
        None => {},
        Some(k) => {
            lemma_kvs_insert_wf(kws, k, vals);
            let r = kvs_insert(kws, k, vals);
            assert forall|j: int| 0 <= j < r.len() implies wf_key((#[trigger] r[j]).0) by {
                if r[j] != (k, vals) {
                    assert(kws.contains(r[j]));
                    let a = choose|a: int| 0 <= a < kws.len() && kws[a] == r[j];
                    assert(wf_key(kws[a].0));
                }
            }
            assert forall|j: int, v: int|
                0 <= j < r.len() && 0 <= v < r[j].1.len() implies wf_type(
                #[trigger] r[j].1[v],
            ) by {
                if r[j] != (k, vals) {
                    assert(kws.contains(r[j]));
                    let a = choose|a: int| 0 <= a < kws.len() && kws[a] == r[j];
                    assert(wf_type(kws[a].1[v]));
                }
            }
        },
    }
}

impl UnicodeExtensionList {
    /// Parses the unicode section from token `start`, stopping before the
    /// first token that does not belong to it.
    pub fn try_from_tokens(toks: &Vec<Vec<u8>>, start: usize) -> (r: Result<
        (Self, usize),
        ParserError,
    >)
        requires
            start <= toks@.len(),
        ensures
            ({
                let sp = spec_parse_unicode(token_views(toks@), start as int);
                match r {
                    Ok(pair) => {
                        &&& sp matches Ok(spair) && spair.0 == pair.0.parts() && spair.1
                            == pair.1 as int
                        &&& pair.0.wf()
                        &&& start <= pair.1 <= toks@.len()
                    },
                    Err(e) => sp == Err::<(UniParts, int), ParserError>(e),
                }
            }),
    {
        let ghost tv = token_views(toks@);
        let ghost target = spec_parse_unicode(tv, start as int);
        let mut attrs: Vec<u64> = Vec::new();
        let mut kws: Vec<(u32, Vec<u64>)> = Vec::new();
        let mut cur: Option<u32> = None;
        let mut vals: Vec<u64> = Vec::new();
        let mut i: usize = start;
        proof {
            assert(kvs_views(Seq::<(u32, Vec<u64>)>::empty()) =~= Seq::<(u32, Seq<u64>)>::empty());
        }
        while i < toks.len()
            invariant
                start <= i <= toks@.len(),
                tv == token_views(toks@),
                target == spec_parse_unicode(tv, start as int),
                target == spec_parse_unicode_at(tv, i as int, attrs@, kvs_views(kws@), cur, vals@),
                sorted_strict(attrs@),
                forall|k: int| 0 <= k < attrs@.len() ==> wf_attribute(#[trigger] attrs@[k]),
                wf_kvs(kvs_views(kws@)),
                cur matches Some(k) ==> wf_key(k),
                forall|v: int| 0 <= v < vals@.len() ==> wf_type(#[trigger] vals@[v]),
            decreases toks@.len() - i,
        {
            let t = &toks[i];
            proof {
                assert(tv[i as int] == t@);
            }
            if t.len() == 2 {
                match parse_ukey_bytes(t) {
                    Err(e) => {
                        return Err(e);
                    },
                    Ok(k) => {
                        proof {
                            lemma_parse_key_wf(t@);
                            lemma_uni_flush_wf(kvs_views(kws@), cur, vals@);
                        }
                        if let Some(open_key) = cur {
                            kvs_insert_vec(&mut kws, open_key, vals);
                        }
                        vals = Vec::new();
                        cur = Some(k);
                    },
                }
            } else if cur.is_some() && is_type_token_local(t) {
                match parse_type_bytes(t) {
                    Err(e) => {
                        return Err(e);
                    },
                    Ok(None) => {},
                    Ok(Some(v)) => {
                        proof {
                            lemma_parse_type_wf(t@);
                        }
                        vals.push(v);
                    },
                }
            } else if is_type_token_local(t) {
                match parse_attribute_bytes(t) {
                    Err(e) => {
                        return Err(e);
                    },
                    Ok(v) => {
                        proof {
                            lemma_parse_attribute_wf(t@);
                            lemma_insert_sorted(attrs@, v);
                            lemma_insert_sorted_wf_attr(attrs@, v);
                        }
                        insert_sorted(&mut attrs, v);
                    },
                }
            } else {
                proof {
                    lemma_uni_flush_wf(kvs_views(kws@), cur, vals@);
                }
                if let Some(open_key) = cur {
                    kvs_insert_vec(&mut kws, open_key, vals);
                }
                let u = UnicodeExtensionList { keywords: kws, attributes: attrs };
                return Ok((u, i));
            }
            i = i + 1;
        }
        proof {
            lemma_uni_flush_wf(kvs_views(kws@), cur, vals@);
        }
        if let Some(open_key) = cur {
            kvs_insert_vec(&mut kws, open_key, vals);
        }
        let u = UnicodeExtensionList { keywords: kws, attributes: attrs };
        Ok((u, i))
    }
}

fn is_type_token_local(t: &Vec<u8>) -> (r: bool)
    ensures
        r == is_type_token(t@),
{
    crate::extensions::is_type_token_bytes(t)
}

// ---------------------------------------------------------------------------
// Serialization of the unicode section
// ---------------------------------------------------------------------------

/// Canonical text: nothing when empty, else `-u`, the sorted attributes,
/// then the keywords in key order.
pub open spec fn serialize_unicode(u: UniParts) -> Seq<u8> {
    if u.attributes.len() == 0 && u.keywords.len() == 0 {
        Seq::empty()
    } else {
        seq![45u8, 117u8] + variants_bytes(u.attributes) + kvs_bytes(u.keywords)
    }
}

impl UnicodeExtensionList {
    /// Appends the canonical text of the section.
    pub fn write_bytes(&self, out: &mut Vec<u8>)
        ensures
            final(out)@ == old(out)@ + serialize_unicode(self.parts()),
    {
        if self.keywords.len() == 0 && self.attributes.len() == 0 {
            return ;
        }
        let ghost base = out@;
        out.push(45);
        out.push(117);
        push_list8(out, &self.attributes);
        push_kvs(out, &self.keywords);
        proof {
            assert(out@ =~= base + serialize_unicode(self.parts()));
        }
    }
}

// ---------------------------------------------------------------------------
// Keyword and attribute accessors
// ---------------------------------------------------------------------------

impl UnicodeExtensionList {
    /// The values of `key`, empty when the keyword is absent; a malformed
    /// key is an error.
    pub fn get_keyword(&self, key: &str) -> (r: Result<Vec<String>, LocaleError>)
        requires
            self.wf(),
        ensures
            match spec_parse_ukey(key.spec_bytes()) {
                Err(e) => r == Err::<Vec<String>, LocaleError>(LocaleError::ParserError(e)),
                Ok(k) => r matches Ok(out) && ({
                    let vals = match kvs_get(self.parts().keywords, k) {
                        None => Seq::<u64>::empty(),
                        Some(vs) => vs,
                    };
                    out@.len() == vals.len() && forall|j: int|
                        0 <= j < out@.len() ==> (#[trigger] out@[j])@ == chars_of(
                            unpack8(vals[j]),
                        )
                }),
            },
    {
        let kb = key.as_bytes_vec();
        match parse_ukey_bytes(&kb) {
            Err(e) => Err(LocaleError::ParserError(e)),
            Ok(k) => {
                let vals: Vec<u64> = match kvs_get_vec(&self.keywords, k) {
                    None => Vec::new(),
                    Some(vs) => vs,
                };
                proof {
                    if kvs_get(self.parts().keywords, k) is Some {
                        lemma_kvs_get_values_wf(self.parts().keywords, k);
                        assert forall|v: int| 0 <= v < vals@.len() implies wf_type(
                            #[trigger] vals@[v],
                        ) by {
                            assert(vals@[v] == kvs_get(self.parts().keywords, k)->Some_0[v]);
                        }
                    }
                }
                let mut out: Vec<String> = Vec::new();
                let mut j: usize = 0;
                while j < vals.len()
                    invariant
                        j <= vals@.len(),
                        forall|v: int| 0 <= v < vals@.len() ==> wf_type(#[trigger] vals@[v]),
                        out@.len() == j,
                        forall|v: int|
                            0 <= v < j ==> (#[trigger] out@[v])@ == chars_of(unpack8(vals@[v])),
                    decreases vals@.len() - j,
                {
                    let b = unpack8_bytes(vals[j]);
                    proof {
                        assert(wf_type(vals@[j as int]));
                        assert forall|x: int| 0 <= x < b@.len() implies #[trigger] b@[x]
                            < 128 by {
                            assert(is_lower_alnum(unpack8(vals@[j as int])[x]));
                        }
                    }
                    out.push(string_from_ascii(b));
                    j = j + 1;
                }
                Ok(out)
            },
        }
    }

    /// The keyword keys, in canonical order, as text.
    pub fn get_keyword_keys(&self) -> (r: Vec<String>)
        requires
            self.wf(),
        ensures
            r@.len() == self.keywords@.len(),
            forall|j: int|
                0 <= j < r@.len() ==> (#[trigger] r@[j])@ == chars_of(
                    unpack4(self.parts().keywords[j].0),
                ),
    {
        let mut r: Vec<String> = Vec::new();
        let mut j: usize = 0;
        while j < self.keywords.len()
            invariant
                j <= self.keywords@.len(),
                self.wf(),
                r@.len() == j,
                forall|v: int|
                    0 <= v < j ==> (#[trigger] r@[v])@ == chars_of(
                        unpack4(self.parts().keywords[v].0),
                    ),
            decreases self.keywords@.len() - j,
        {
            let b = unpack4_bytes(self.keywords[j].0);
            proof {
                assert(wf_key(self.parts().keywords[j as int].0));
                assert(self.parts().keywords[j as int].0 == self.keywords@[j as int].0);
                assert forall|x: int| 0 <= x < b@.len() implies #[trigger] b@[x] < 128 by {
                    assert(is_lower_alnum(unpack4(self.keywords@[j as int].0)[x]));
                }
            }
            r.push(string_from_ascii(b));
            j = j + 1;
        }
        r
    }

    /// Sets the values of `key`, replacing any present entry; a `true`
    /// value is elided on storage.
    pub fn set_keyword(&mut self, key: &str, value: &[&str]) -> (r: Result<(), LocaleError>)
        requires
            old(self).wf(),
        ensures
            final(self).wf(),
            final(self).attributes@ == old(self).attributes@,
            match spec_parse_ukey(key.spec_bytes()) {
                Err(e) => r == Err::<(), LocaleError>(LocaleError::ParserError(e)) && *final(self)
                    == *old(self),
                Ok(k) => match spec_collect_types(crate::langid::str_views(value@)) {
                    Err(e) => r == Err::<(), LocaleError>(LocaleError::ParserError(e)) && *final(self) == *old(self),
                    Ok(vals) => r is Ok && final(self).parts().keywords == kvs_insert(
                        old(self).parts().keywords,
                        k,
                        vals,
                    ),
                },
            },
    {
        let kb = key.as_bytes_vec();
        match parse_ukey_bytes(&kb) {
            Err(e) => Err(LocaleError::ParserError(e)),
            Ok(k) => {
                let mut vals: Vec<u64> = Vec::new();
                let ghost vtarget = spec_collect_types(crate::langid::str_views(value@));
                let mut j: usize = 0;
                proof {
                    assert(crate::langid::str_views(value@).skip(0) =~= crate::langid::str_views(
                        value@,
                    ));
                }
                while j < value.len()
                    invariant
                        j <= value@.len(),
                        *self == *old(self),
                        self.wf(),
                        spec_parse_ukey(key.spec_bytes()) == Ok::<u32, ParserError>(k),
                        vtarget == spec_collect_types(crate::langid::str_views(value@)),
                        vtarget == spec_collect_types_at(
                            crate::langid::str_views(value@).skip(j as int),
                            vals@,
                        ),
                        forall|v: int| 0 <= v < vals@.len() ==> wf_type(#[trigger] vals@[v]),
                        vals@.len() <= j,
                    decreases value@.len() - j,
                {
                    let t: &str = *vstd::slice::slice_index_get(value, j);
                    proof {
                        assert(crate::langid::str_views(value@).skip(j as int)[0]
                            == t.spec_bytes());
                    }
                    let tb = t.as_bytes_vec();
                    match parse_type_bytes(&tb) {
                        Err(e) => {
                            return Err(LocaleError::ParserError(e));
                        },
                        Ok(opt) => {
                            proof {
                                if opt is Some {
                                    lemma_parse_type_wf(t.spec_bytes());
                                }
                                assert(crate::langid::str_views(value@).skip(
                                    j as int,
                                ).drop_first() =~= crate::langid::str_views(value@).skip(j + 1));
                            }
                            if let Some(v) = opt {
                                vals.push(v);
                            }
                        },
                    }
                    j = j + 1;
                }
                proof {
                    assert(crate::langid::str_views(value@).skip(value@.len() as int) =~= Seq::<
                        Seq<u8>,
                    >::empty());
                    lemma_parse_key_wf(key.spec_bytes());
                    lemma_uni_flush_wf_pub(kvs_views(self.keywords@), k, vals@);
                }
                kvs_insert_vec(&mut self.keywords, k, vals);
                Ok(())
            },
        }
    }

    /// Removes the keyword for `key`; reports whether it was there.
    pub fn remove_keyword(&mut self, key: &str) -> (r: Result<bool, LocaleError>)
        requires
            old(self).wf(),
        ensures
            final(self).wf(),
            final(self).attributes@ == old(self).attributes@,
            match spec_parse_ukey(key.spec_bytes()) {
                Err(e) => r == Err::<bool, LocaleError>(LocaleError::ParserError(e)) && *final(self)
                    == *old(self),
                Ok(k) => {
                    &&& r == Ok::<bool, LocaleError>(
                        kvs_get(old(self).parts().keywords, k) is Some,
                    )
                    &&& final(self).parts().keywords == kvs_remove(old(self).parts().keywords, k)
                },
            },
    {
        let kb = key.as_bytes_vec();
        match parse_ukey_bytes(&kb) {
            Err(e) => Err(LocaleError::ParserError(e)),
            Ok(k) => {
                proof {
                    lemma_kvs_remove_sorted(kvs_views(self.keywords@), k);
                    lemma_kvs_remove_wf(kvs_views(self.keywords@), k);
                }
                let was = kvs_remove_vec(&mut self.keywords, k);
                Ok(was)
            },
        }
    }

    /// Removes every keyword.
    pub fn clear_keywords(&mut self)
        ensures
            final(self).keywords@.len() == 0,
            final(self).attributes@ == old(self).attributes@,
            old(self).wf() ==> final(self).wf(),
    {
        self.keywords.clear();
    }

    /// Whether a well-formed attribute is present.
    pub fn has_attribute(&self, attribute: &str) -> (r: Result<bool, LocaleError>)
        ensures
            match spec_parse_attribute(attribute.spec_bytes()) {
                Ok(v) => r == Ok::<bool, LocaleError>(self.attributes@.contains(v)),
                Err(e) => r == Err::<bool, LocaleError>(LocaleError::ParserError(e)),
            },
    {
        let b = attribute.as_bytes_vec();
        match parse_attribute_bytes(&b) {
            Err(e) => Err(LocaleError::ParserError(e)),
            Ok(v) => {
                let mut i: usize = 0;
                while i < self.attributes.len()
                    invariant
                        i <= self.attributes@.len(),
                        spec_parse_attribute(attribute.spec_bytes()) == Ok::<u64, ParserError>(v),
                        forall|j: int| 0 <= j < i ==> #[trigger] self.attributes@[j] != v,
                    decreases self.attributes@.len() - i,
                {
                    if self.attributes[i] == v {
                        assert(self.attributes@.contains(v));
                        return Ok(true);
                    }
                    i = i + 1;
                }
                assert(!self.attributes@.contains(v));
                Ok(false)
            },
        }
    }

    /// The attributes, in canonical order, as text.
    pub fn get_attributes(&self) -> (r: Vec<String>)
        requires
            self.wf(),
        ensures
            r@.len() == self.attributes@.len(),
            forall|k: int|
                0 <= k < r@.len() ==> (#[trigger] r@[k])@ == chars_of(
                    unpack8(self.attributes@[k]),
                ),
    {
        let mut r: Vec<String> = Vec::new();
        let mut k: usize = 0;
        while k < self.attributes.len()
            invariant
                k <= self.attributes@.len(),
                self.wf(),
                r@.len() == k,
                forall|j: int|
                    0 <= j < k ==> (#[trigger] r@[j])@ == chars_of(unpack8(self.attributes@[j])),
            decreases self.attributes@.len() - k,
        {
            let v = self.attributes[k];
            let b = unpack8_bytes(v);
            proof {
                assert(wf_attribute(self.attributes@[k as int]));
                assert forall|i: int| 0 <= i < b@.len() implies #[trigger] b@[i] < 128 by {
                    assert(is_lower_alnum(unpack8(v)[i]));
                }
            }
            r.push(string_from_ascii(b));
            k = k + 1;
        }
        r
    }

    /// Validates and adds an attribute, keeping the list sorted and
    /// deduplicated.
    pub fn set_attribute(&mut self, attribute: &str) -> (r: Result<(), LocaleError>)
        requires
            old(self).wf(),
        ensures
            final(self).wf(),
            final(self).keywords@ == old(self).keywords@,
            match spec_parse_attribute(attribute.spec_bytes()) {
                Ok(v) => r is Ok && final(self).attributes@ == insert_sorted_spec(
                    old(self).attributes@,
                    v,
                ),
                Err(e) => r == Err::<(), LocaleError>(LocaleError::ParserError(e)) && *final(self)
                    == *old(self),
            },
    {
        let b = attribute.as_bytes_vec();
        match parse_attribute_bytes(&b) {
            Err(e) => Err(LocaleError::ParserError(e)),
            Ok(v) => {
                proof {
                    lemma_parse_attribute_wf(attribute.spec_bytes());
                    lemma_insert_sorted(self.attributes@, v);
                    lemma_insert_sorted_wf_attr(self.attributes@, v);
                }
                insert_sorted(&mut self.attributes, v);
                Ok(())
            },
        }
    }

    /// Removes an attribute; reports whether it was there.
    pub fn remove_attribute(&mut self, attribute: &str) -> (r: Result<bool, LocaleError>)
        requires
            old(self).wf(),
        ensures
            final(self).wf(),
            final(self).keywords@ == old(self).keywords@,
            match spec_parse_attribute(attribute.spec_bytes()) {
                Ok(v) => {
                    &&& r == Ok::<bool, LocaleError>(old(self).attributes@.contains(v))
                    &&& forall|x: u64|
                        #[trigger] final(self).attributes@.contains(x) <==> (old(
                            self,
                        ).attributes@.contains(x) && x != v)
                },
                Err(e) => r == Err::<bool, LocaleError>(LocaleError::ParserError(e)) && *final(self)
                    == *old(self),
            },
    {
        let b = attribute.as_bytes_vec();
        match parse_attribute_bytes(&b) {
            Err(e) => Err(LocaleError::ParserError(e)),
            Ok(v) => {
                let mut i: usize = 0;
                while i < self.attributes.len() && self.attributes[i] != v
                    invariant
                        i <= self.attributes@.len(),
                        self.attributes@ == old(self).attributes@,
                        self.keywords@ == old(self).keywords@,
                        forall|j: int| 0 <= j < i ==> #[trigger] self.attributes@[j] != v,
                    decreases self.attributes@.len() - i,
                {
                    i = i + 1;
                }
                if i < self.attributes.len() {
                    proof {
                        assert(self.attributes@.contains(v)) by {
                            assert(self.attributes@[i as int] == v);
                        }
                    }
                    self.attributes.remove(i);
                    proof {
                        lemma_attr_remove_at(old(self).attributes@, i as int, v);
                        assert(self.attributes@ =~= old(self).attributes@.take(i as int) + old(
                            self,
                        ).attributes@.skip(i as int + 1));
                    }
                    Ok(true)
                } else {
                    proof {
                        assert(!self.attributes@.contains(v));
                    }
                    Ok(false)
                }
            },
        }
    }

    /// Removes every attribute.
    pub fn clear_attributes(&mut self)
        ensures
            final(self).attributes@.len() == 0,
            final(self).keywords@ == old(self).keywords@,
            old(self).wf() ==> final(self).wf(),
    {
        self.attributes.clear();
    }
}

/// Folds value tokens for `set_keyword`, eliding `true`.
pub open spec fn spec_collect_types_at(ts: Seq<Seq<u8>>, acc: Seq<u64>) -> Result<
    Seq<u64>,
    ParserError,
>
    decreases ts.len(),
{
    if ts.len() == 0 {
        Ok(acc)
    } else {
        match spec_parse_type(ts[0]) {
            Err(e) => Err(e),
            Ok(None) => spec_collect_types_at(ts.drop_first(), acc),
            Ok(Some(v)) => spec_collect_types_at(ts.drop_first(), acc.push(v)),
        }
    }
}

pub open spec fn spec_collect_types(ts: Seq<Seq<u8>>) -> Result<Seq<u64>, ParserError> {
    spec_collect_types_at(ts, Seq::empty())
}

/// Values stored under any key of a well-formed keyword list are well
/// formed.
proof fn lemma_kvs_get_values_wf(kws: Seq<(u32, Seq<u64>)>, k: u32)
    requires
        wf_kvs(kws),
        kvs_get(kws, k) is Some,
    ensures
        forall|v: int|
            0 <= v < kvs_get(kws, k)->Some_0.len() ==> wf_type(
                #[trigger] kvs_get(kws, k)->Some_0[v],
            ),
    decreases kws.len(),
{
    if kws.len() == 0 {
    } else if kws[0].0 == k {
        assert(forall|v: int| 0 <= v < kws[0].1.len() ==> wf_type(#[trigger] kws[0].1[v]));
    } else {
        let tail = kws.drop_first();
        assert(wf_kvs(tail)) by {
            assert(forall|j: int| 0 <= j < tail.len() ==> #[trigger] tail[j] == kws[j + 1]);
            assert(forall|a: int, b: int|
                0 <= a < b < tail.len() ==> tail[a] == kws[a + 1] && tail[b] == kws[b + 1]);
        }
        lemma_kvs_get_values_wf(tail, k);
    }
}

/// The well-formedness carry for a keyword insertion.
proof fn lemma_uni_flush_wf_pub(kws: Seq<(u32, Seq<u64>)>, k: u32, vals: Seq<u64>)
    requires
        wf_kvs(kws),
        wf_key(k),
        forall|v: int| 0 <= v < vals.len() ==> wf_type(#[trigger] vals[v]),
    ensures
        wf_kvs(kvs_insert(kws, k, vals)),
{
    lemma_uni_flush_wf(kws, Some(k), vals);
}

/// Removal keeps a well-formed keyword list well formed.
proof fn lemma_kvs_remove_wf(kws: Seq<(u32, Seq<u64>)>, k: u32)
    requires
        wf_kvs(kws),
    ensures
        wf_kvs(kvs_remove(kws, k)),
{
    lemma_kvs_remove_sorted(kws, k);
    let r = kvs_remove(kws, k);
    assert forall|j: int| 0 <= j < r.len() implies wf_key((#[trigger] r[j]).0) by {
        assert(kws.contains(r[j]));
        let a = choose|a: int| 0 <= a < kws.len() && kws[a] == r[j];
        assert(wf_key(kws[a].0));
    }
    assert forall|j: int, v: int|
        0 <= j < r.len() && 0 <= v < r[j].1.len() implies wf_type(#[trigger] r[j].1[v]) by {
        assert(kws.contains(r[j]));
        let a = choose|a: int| 0 <= a < kws.len() && kws[a] == r[j];
        assert(wf_type(kws[a].1[v]));
    }
}

/// Removing position `i` of a strictly ascending attribute list.
proof fn lemma_attr_remove_at(s: Seq<u64>, i: int, v: u64)
    requires
        sorted_strict(s),
        0 <= i < s.len(),
        s[i] == v,
        forall|j: int| 0 <= j < i ==> #[trigger] s[j] != v,
    ensures
        sorted_strict(s.take(i) + s.skip(i + 1)),
        forall|x: u64|
            #[trigger] (s.take(i) + s.skip(i + 1)).contains(x) <==> (s.contains(x) && x != v),
        forall|k: int|
            0 <= k < (s.take(i) + s.skip(i + 1)).len() ==> s.contains(
                #[trigger] (s.take(i) + s.skip(i + 1))[k],
            ),
{
    let r = s.take(i) + s.skip(i + 1);
    assert forall|a: int, b: int| 0 <= a < b < r.len() implies r[a] < r[b] by {
        let ra: int = if a < i {
            a
        } else {
            a + 1
        };
        let rb: int = if b < i {
            b
        } else {
            b + 1
        };
        assert(r[a] == s[ra] && r[b] == s[rb]);
    }
    assert forall|x: u64| #[trigger] r.contains(x) implies s.contains(x) && x != v by {
        let k = choose|k: int| 0 <= k < r.len() && r[k] == x;
        let rk: int = if k < i {
            k
        } else {
            k + 1
        };
        assert(r[k] == s[rk]);
        assert(s.contains(x)) by {
            assert(s[rk] == x);
        }
        if rk != i {
            assert(s[rk] != s[i]);
        }
    }
    assert forall|x: u64| s.contains(x) && x != v implies #[trigger] r.contains(x) by {
        let k = choose|k: int| 0 <= k < s.len() && s[k] == x;
        if k < i {
            assert(r[k] == x);
        } else {
            assert(k > i);
            assert(r[k - 1] == x);
        }
    }
    assert forall|k: int| 0 <= k < r.len() implies s.contains(#[trigger] r[k]) by {
        assert(r.contains(r[k]));
    }
}

impl PartialEq for UnicodeExtensionList {
    fn eq(&self, other: &Self) -> (r: bool) {
        if !vec_u64_eq(&self.attributes, &other.attributes) {
            return false;
        }
        if self.keywords.len() != other.keywords.len() {
            proof {
                assert(kvs_views(self.keywords@).len() == self.keywords@.len());
                assert(kvs_views(other.keywords@).len() == other.keywords@.len());
            }
            return false;
        }
        let mut i: usize = 0;
        while i < self.keywords.len()
            invariant
                i <= self.keywords@.len(),
                self.keywords@.len() == other.keywords@.len(),
                self.attributes@ == other.attributes@,
                forall|j: int|
                    0 <= j < i ==> (#[trigger] self.keywords@[j]).0 == other.keywords@[j].0
                        && self.keywords@[j].1@ == other.keywords@[j].1@,
            decreases self.keywords@.len() - i,
        {
            if self.keywords[i].0 != other.keywords[i].0 {
                proof {
                    assert(kvs_views(self.keywords@)[i as int].0 == self.keywords@[i as int].0);
                    assert(kvs_views(other.keywords@)[i as int].0 == other.keywords@[i as int].0);
                }
                return false;
            }
            if !vec_u64_eq(&self.keywords[i].1, &other.keywords[i].1) {
                proof {
                    assert(kvs_views(self.keywords@)[i as int].1 == self.keywords@[i as int].1@);
                    assert(kvs_views(other.keywords@)[i as int].1 == other.keywords@[i as int].1@);
                }
                return false;
            }
            i = i + 1;
        }
        proof {
            assert(kvs_views(self.keywords@) =~= kvs_views(other.keywords@));
        }
        true
    }
}

impl vstd::std_specs::cmp::PartialEqSpecImpl for UnicodeExtensionList {
    open spec fn obeys_eq_spec() -> bool {
        true
    }

    open spec fn eq_spec(&self, other: &Self) -> bool {
        self.attributes@ == other.attributes@ && kvs_views(self.keywords@) == kvs_views(
            other.keywords@,
        )
    }
}

impl Default for UnicodeExtensionList {
    /// The empty unicode section.
    fn default() -> (r: Self)
        ensures
            r.keywords@.len() == 0,
            r.attributes@.len() == 0,
            r.wf(),
    {
        UnicodeExtensionList { keywords: Vec::new(), attributes: Vec::new() }
    }
}

} // verus!
