//! The Transform (`t`) extension section: an optional source language and
//! keyed fields.

use vstd::prelude::*;
use vstd::string::StringSliceAdditionalSpecFns;
use crate::codec::{
    chars_of, is_ascii_alpha, string_from_ascii, unpack4, unpack8, unpack4_bytes, unpack8_bytes,
    lower_seq, pack4,
};
use crate::errors::{LocaleError, ParserError};
use crate::extensions::{
    is_type_token, kvs_bytes, kvs_get, kvs_get_vec, kvs_insert, kvs_insert_vec, kvs_remove,
    kvs_remove_vec, kvs_sorted, kvs_views, lemma_kvs_insert_wf, lemma_kvs_remove_sorted,
    lemma_parse_type_wf, parse_tkey_bytes, parse_type_bytes, push_kvs, spec_parse_tkey,
    spec_parse_type, wf_key, wf_kvs, wf_type,
};
use crate::langid::{LangIdParts, LanguageIdentifier, serialize_langid, vec_u64_eq, wf_parts};
use crate::parser::{is_tkey_token, parse_langid_tokens, spec_parse_langid_from};
use crate::subtags::{is_lower_alnum, is_lower_alpha};
use crate::tokens::token_views;

verus! {

/// The abstract content of the transform section.
#[verifier::ext_equal]
pub struct TransParts {
    pub tlang: Option<LangIdParts>,
    pub tfields: Seq<(u32, Seq<u64>)>,
}

/// A stored transform key: a lower-case letter then a digit.
pub open spec fn wf_tkey(k: u32) -> bool {
    &&& wf_key(k)
    &&& unpack4(k).len() == 2
    &&& is_lower_alpha(unpack4(k)[0])
    &&& crate::codec::is_ascii_digit(unpack4(k)[1])
}

pub open spec fn wf_transform(t: TransParts) -> bool {
    &&& (t.tlang matches Some(p) ==> wf_parts(p))
    &&& kvs_sorted(t.tfields)
    &&& forall|j: int| 0 <= j < t.tfields.len() ==> wf_key((#[trigger] t.tfields[j]).0)
    &&& forall|j: int, v: int|
        0 <= j < t.tfields.len() && 0 <= v < t.tfields[j].1.len() ==> wf_type(
            #[trigger] t.tfields[j].1[v],
        )
}

/// The transform extension data of a locale: an optional embedded source
/// language identifier and fields kept in ascending key order.
#[derive(Debug, Clone)]
pub struct TransformExtensionList {
    pub tlang: Option<LanguageIdentifier>,
    pub tfields: Vec<(u32, Vec<u64>)>,
}

pub open spec fn tlang_parts(t: &TransformExtensionList) -> Option<LangIdParts> {
    match t.tlang {
        None => None,
        Some(id) => Some(id.parts()),
    }
}

impl TransformExtensionList {
    pub open spec fn parts(&self) -> TransParts {
        TransParts { tlang: tlang_parts(self), tfields: kvs_views(self.tfields@) }
    }

    pub open spec fn wf(&self) -> bool {
        wf_transform(self.parts())
    }

    /// Whether the section holds no source language and no fields.
    pub fn is_empty(&self) -> (r: bool)
        ensures
            r == (self.tlang is None && self.tfields@.len() == 0),
    {
        self.tlang.is_none() && self.tfields.len() == 0
    }

    /// The embedded source language identifier, if any.
    pub fn tlang(&self) -> (r: Option<&LanguageIdentifier>)
        ensures
            match r {
                None => self.tlang is None,
                Some(id) => self.tlang matches Some(own) && own == *id,
            },
    {
        self.tlang.as_ref()
    }

    /// Sets the source language identifier.
    pub fn set_tlang(&mut self, tlang: LanguageIdentifier) -> (r: Result<(), LocaleError>)
        requires
            tlang.wf(),
        ensures
            r is Ok,
            final(self).tlang == Some(tlang),
            final(self).tfields@ == old(self).tfields@,
            old(self).wf() ==> final(self).wf(),
    {
        self.tlang = Some(tlang);
        Ok(())
    }

    /// Clears the source language identifier.
    pub fn clear_tlang(&mut self)
        ensures
            final(self).tlang is None,
            final(self).tfields@ == old(self).tfields@,
            old(self).wf() ==> final(self).wf(),
    {
        self.tlang = None;
    }

    /// The values of the field for `tkey`, empty when absent.
    pub fn tfield(&self, tkey: &str) -> (r: Result<Vec<String>, LocaleError>)
        requires
            self.wf(),
        ensures
            match spec_parse_tkey(tkey.spec_bytes()) {
                Err(e) => r == Err::<Vec<String>, LocaleError>(LocaleError::ParserError(e)),
                Ok(k) => r matches Ok(out) && ({
                    let vals = match kvs_get(self.parts().tfields, k) {
                        None => Seq::<u64>::empty(),
                        Some(vs) => vs,
                    };
                    out@.len() == vals.len() && forall|j: int|
                        0 <= j < out@.len() ==> (#[trigger] out@[j])@ == chars_of(
                            unpack8(vals[j]),
                        )
                }),
            },
    {
        let kb = tkey.as_bytes_vec();
        match parse_tkey_bytes(&kb) {
            Err(e) => Err(LocaleError::ParserError(e)),
            Ok(k) => {
                let vals: Vec<u64> = match kvs_get_vec(&self.tfields, k) {
                    None => Vec::new(),
                    Some(vs) => vs,
                };
                proof {
                    if kvs_get(self.parts().tfields, k) is Some {
                        lemma_tfields_get_values_wf(self.parts().tfields, k);
                        assert forall|v: int| 0 <= v < vals@.len() implies wf_type(
                            #[trigger] vals@[v],
                        ) by {
                            assert(vals@[v] == kvs_get(self.parts().tfields, k)->Some_0[v]);
                        }
                    }
                }
                let mut out: Vec<String> = Vec::new();
                let mut j: usize = 0;
                while j < vals.len()
                    invariant
                        j <= vals@.len(),
                        forall|v: int| 0 <= v < vals@.len() ==> wf_type(#[trigger] vals@[v]),
                        out@.len() == j,
                        forall|v: int|
                            0 <= v < j ==> (#[trigger] out@[v])@ == chars_of(unpack8(vals@[v])),
                    decreases vals@.len() - j,
                {
                    let b = unpack8_bytes(vals[j]);
                    proof {
                        assert(wf_type(vals@[j as int]));
                        assert forall|x: int| 0 <= x < b@.len() implies #[trigger] b@[x]
                            < 128 by {
                            assert(is_lower_alnum(unpack8(vals@[j as int])[x]));
                        }
                    }
                    out.push(string_from_ascii(b));
                    j = j + 1;
                }
                Ok(out)
            },
        }
    }

    /// The field keys, in canonical order, as text.
    pub fn tfield_keys(&self) -> (r: Vec<String>)
        requires
            self.wf(),
        ensures
            r@.len() == self.tfields@.len(),
            forall|j: int|
                0 <= j < r@.len() ==> (#[trigger] r@[j])@ == chars_of(
                    unpack4(self.parts().tfields[j].0),
                ),
    {
        let mut r: Vec<String> = Vec::new();
        let mut j: usize = 0;
        while j < self.tfields.len()
            invariant
                j <= self.tfields@.len(),
                self.wf(),
                r@.len() == j,
                forall|v: int|
                    0 <= v < j ==> (#[trigger] r@[v])@ == chars_of(
                        unpack4(self.parts().tfields[v].0),
                    ),
            decreases self.tfields@.len() - j,
        {
            let b = unpack4_bytes(self.tfields[j].0);
            proof {
                assert(wf_key(self.parts().tfields[j as int].0));
                assert(self.parts().tfields[j as int].0 == self.tfields@[j as int].0);
                assert forall|x: int| 0 <= x < b@.len() implies #[trigger] b@[x] < 128 by {
                    assert(is_lower_alnum(unpack4(self.tfields@[j as int].0)[x]));
                }
            }
            r.push(string_from_ascii(b));
            j = j + 1;
        }
        r
    }

    /// Sets the values of the field for `tkey`, replacing any present
    /// entry; a `true` value is elided on storage.
    pub fn set_tfield(&mut self, tkey: &str, tvalue: &[&str]) -> (r: Result<(), LocaleError>)
        requires
            old(self).wf(),
        ensures
            final(self).wf(),
            final(self).tlang == old(self).tlang,
            match spec_parse_tkey(tkey.spec_bytes()) {
                Err(e) => r == Err::<(), LocaleError>(LocaleError::ParserError(e)) && *final(self)
                    == *old(self),
                Ok(k) => match crate::extensions::unicode::spec_collect_types(
                    crate::langid::str_views(tvalue@),
                ) {
                    Err(e) => r == Err::<(), LocaleError>(LocaleError::ParserError(e)) && *final(self) == *old(self),
                    Ok(vals) => r is Ok && final(self).parts().tfields == kvs_insert(
                        old(self).parts().tfields,
                        k,
                        vals,
                    ),
                },
            },
    {
        let kb = tkey.as_bytes_vec();
        match parse_tkey_bytes(&kb) {
            Err(e) => Err(LocaleError::ParserError(e)),
            Ok(k) => {
                let mut vals: Vec<u64> = Vec::new();
                let ghost vtarget = crate::extensions::unicode::spec_collect_types(
                    crate::langid::str_views(tvalue@),
                );
                let mut j: usize = 0;
                proof {
                    assert(crate::langid::str_views(tvalue@).skip(0) =~= crate::langid::str_views(
                        tvalue@,
                    ));
                }
                while j < tvalue.len()
                    invariant
                        j <= tvalue@.len(),
                        *self == *old(self),
                        self.wf(),
                        spec_parse_tkey(tkey.spec_bytes()) == Ok::<u32, ParserError>(k),
                        vtarget == crate::extensions::unicode::spec_collect_types(
                            crate::langid::str_views(tvalue@),
                        ),
                        vtarget == crate::extensions::unicode::spec_collect_types_at(
                            crate::langid::str_views(tvalue@).skip(j as int),
                            vals@,
                        ),
                        forall|v: int| 0 <= v < vals@.len() ==> wf_type(#[trigger] vals@[v]),
                        vals@.len() <= j,
                    decreases tvalue@.len() - j,
                {
                    let t: &str = *vstd::slice::slice_index_get(tvalue, j);
                    proof {
                        assert(crate::langid::str_views(tvalue@).skip(j as int)[0]
                            == t.spec_bytes());
                    }
                    let tb = t.as_bytes_vec();
                    match parse_type_bytes(&tb) {
                        Err(e) => {
                            return Err(LocaleError::ParserError(e));
                        },
                        Ok(opt) => {
                            proof {
                                if opt is Some {
                                    lemma_parse_type_wf(t.spec_bytes());
                                }
                                assert(crate::langid::str_views(tvalue@).skip(
                                    j as int,
                                ).drop_first() =~= crate::langid::str_views(tvalue@).skip(j + 1));
                            }
                            if let Some(v) = opt {
                                vals.push(v);
                            }
                        },
                    }
                    j = j + 1;
                }
                proof {
                    assert(crate::langid::str_views(tvalue@).skip(tvalue@.len() as int) =~= Seq::<
                        Seq<u8>,
                    >::empty());
                    crate::extensions::lemma_parse_key_wf(tkey.spec_bytes());
                    lemma_tfields_insert_wf(kvs_views(self.tfields@), k, vals@);
                }
                kvs_insert_vec(&mut self.tfields, k, vals);
                Ok(())
            },
        }
    }

    /// Removes the field for `tkey`; reports whether it was there.
    pub fn remove_tfield(&mut self, tkey: &str) -> (r: Result<bool, LocaleError>)
        requires
            old(self).wf(),
        ensures
            final(self).wf(),
            final(self).tlang == old(self).tlang,
            match spec_parse_tkey(tkey.spec_bytes()) {
                Err(e) => r == Err::<bool, LocaleError>(LocaleError::ParserError(e)) && *final(self)
                    == *old(self),
                Ok(k) => {
                    &&& r == Ok::<bool, LocaleError>(
                        kvs_get(old(self).parts().tfields, k) is Some,
                    )
                    &&& final(self).parts().tfields == kvs_remove(old(self).parts().tfields, k)
                },
            },
    {
        let kb = tkey.as_bytes_vec();
        match parse_tkey_bytes(&kb) {
            Err(e) => Err(LocaleError::ParserError(e)),
            Ok(k) => {
                proof {
                    lemma_kvs_remove_sorted(kvs_views(self.tfields@), k);
                    lemma_tfields_remove_wf(kvs_views(self.tfields@), k);
                }
                let was = kvs_remove_vec(&mut self.tfields, k);
                Ok(was)
            },
        }
    }

    /// Removes every field.
    pub fn clear_tfields(&mut self)
        ensures
            final(self).tfields@.len() == 0,
            final(self).tlang == old(self).tlang,
            old(self).wf() ==> final(self).wf(),
    {
        self.tfields.clear();
    }
}

proof fn lemma_tfields_get_values_wf(kws: Seq<(u32, Seq<u64>)>, k: u32)
    requires
        forall|j: int, v: int|
            0 <= j < kws.len() && 0 <= v < kws[j].1.len() ==> wf_type(#[trigger] kws[j].1[v]),
        kvs_get(kws, k) is Some,
    ensures
        forall|v: int|
            0 <= v < kvs_get(kws, k)->Some_0.len() ==> wf_type(
                #[trigger] kvs_get(kws, k)->Some_0[v],
            ),
    decreases kws.len(),
{
    if kws.len() == 0 {
    } else if kws[0].0 == k {
        assert(forall|v: int| 0 <= v < kws[0].1.len() ==> wf_type(#[trigger] kws[0].1[v]));
    } else {
        let tail = kws.drop_first();
        assert(forall|j: int| 0 <= j < tail.len() ==> #[trigger] tail[j] == kws[j + 1]);
        lemma_tfields_get_values_wf(tail, k);
    }
}

proof fn lemma_tfields_insert_wf(kws: Seq<(u32, Seq<u64>)>, k: u32, vals: Seq<u64>)
    requires
        wf_kvs(kws),
        wf_key(k),
        forall|v: int| 0 <= v < vals.len() ==> wf_type(#[trigger] vals[v]),
    ensures
        wf_kvs(kvs_insert(kws, k, vals)),
{
    lemma_kvs_insert_wf(kws, k, vals);
    let r = kvs_insert(kws, k, vals);
    assert forall|j: int| 0 <= j < r.len() implies wf_key((#[trigger] r[j]).0) by {
        if r[j] != (k, vals) {
            assert(kws.contains(r[j]));
            let a = choose|a: int| 0 <= a < kws.len() && kws[a] == r[j];
            assert(wf_key(kws[a].0));
        }
    }
    assert forall|j: int, v: int|
        0 <= j < r.len() && 0 <= v < r[j].1.len() implies wf_type(#[trigger] r[j].1[v]) by {
        if r[j] != (k, vals) {
            assert(kws.contains(r[j]));
            let a = choose|a: int| 0 <= a < kws.len() && kws[a] == r[j];
            assert(wf_type(kws[a].1[v]));
        }
    }
}

proof fn lemma_tfields_remove_wf(kws: Seq<(u32, Seq<u64>)>, k: u32)
    requires
        wf_kvs(kws),
    ensures
        wf_kvs(kvs_remove(kws, k)),
{
    lemma_kvs_remove_sorted(kws, k);
    let r = kvs_remove(kws, k);
    assert forall|j: int| 0 <= j < r.len() implies wf_key((#[trigger] r[j]).0) by {
        assert(kws.contains(r[j]));
        let a = choose|a: int| 0 <= a < kws.len() && kws[a] == r[j];
        assert(wf_key(kws[a].0));
    }
    assert forall|j: int, v: int|
        0 <= j < r.len() && 0 <= v < r[j].1.len() implies wf_type(#[trigger] r[j].1[v]) by {
        assert(kws.contains(r[j]));
        let a = choose|a: int| 0 <= a < kws.len() && kws[a] == r[j];
        assert(wf_type(kws[a].1[v]));
    }
}

// ---------------------------------------------------------------------------
// Parsing the transform section
// ---------------------------------------------------------------------------

/// A candidate first token of an embedded source language: two to eight
/// letters.
pub open spec fn is_langtag_token(t: Seq<u8>) -> bool {
    2 <= t.len() <= 8 && (forall|i: int| 0 <= i < t.len() ==> is_ascii_alpha(#[trigger] t[i]))
}

pub open spec fn tf_flush(
    kws: Seq<(u32, Seq<u64>)>,
    cur: Option<u32>,
    vals: Seq<u64>,
) -> Seq<(u32, Seq<u64>)> {
    match cur {
        None => kws,
        Some(k) => kvs_insert(kws, k, vals),
    }
}

/// The field phase of the transform section: a letter-digit token opens a
/// field; while one is open, value tokens (`true` elided) extend it;
/// anything else ends the section, unconsumed.
pub open spec fn spec_parse_tfields_at(
    toks: Seq<Seq<u8>>,
    i: int,
    tlang: Option<LangIdParts>,
    kws: Seq<(u32, Seq<u64>)>,
    cur: Option<u32>,
    vals: Seq<u64>,
) -> Result<(TransParts, int), ParserError>
    decreases toks.len() - i,
{
    if i < 0 || i >= toks.len() {
        Ok((TransParts { tlang, tfields: tf_flush(kws, cur, vals) }, toks.len() as int))
    } else {
        let t = toks[i];
        if is_tkey_token(t) {
            spec_parse_tfields_at(
                toks,
                i + 1,
                tlang,
                tf_flush(kws, cur, vals),
                Some(pack4(lower_seq(t))),
                Seq::empty(),
            )
        } else if cur is Some && is_type_token(t) {
            match spec_parse_type(t) {
                Err(e) => Err(e),
                Ok(None) => spec_parse_tfields_at(toks, i + 1, tlang, kws, cur, vals),
                Ok(Some(v)) => spec_parse_tfields_at(toks, i + 1, tlang, kws, cur, vals.push(v)),
            }
        } else {
            Ok((TransParts { tlang, tfields: tf_flush(kws, cur, vals) }, i))
        }
    }
}

/// The transform section: an embedded language identifier may open it
/// when the first token looks like one, then the field phase runs.
pub open spec fn spec_parse_transform(toks: Seq<Seq<u8>>, i: int) -> Result<
    (TransParts, int),
    ParserError,
> {
    if 0 <= i < toks.len() && is_langtag_token(toks[i]) && !is_tkey_token(toks[i]) {
        match spec_parse_langid_from(toks, i, true, true) {
            Err(_) => Err(ParserError::InvalidLanguage),
            Ok(pair) => {
                if pair.1 > i {
                    spec_parse_tfields_at(
                        toks,
                        pair.1,
                        Some(pair.0),
                        Seq::empty(),
                        None,
                        Seq::empty(),
                    )
                } else {
                    Err(ParserError::InvalidLanguage)
                }
            },
        }
    } else {
        spec_parse_tfields_at(toks, i, None, Seq::empty(), None, Seq::empty())
    }
}

impl TransformExtensionList {
    /// Parses the transform section from token `start`, stopping before
    /// the first token that does not belong to it.
    pub fn try_from_tokens(toks: &Vec<Vec<u8>>, start: usize) -> (r: Result<
        (Self, usize),
        ParserError,
    >)
        requires
            start <= toks@.len(),
        ensures
            ({
                let sp = spec_parse_transform(token_views(toks@), start as int);
                match r {
                    Ok(pair) => {
                        &&& sp matches Ok(spair) && spair.0 == pair.0.parts() && spair.1
                            == pair.1 as int
                        &&& pair.0.wf()
                        &&& start <= pair.1 <= toks@.len()
                    },
                    Err(e) => sp == Err::<(TransParts, int), ParserError>(e),
                }
            }),
    {
        let ghost tv = token_views(toks@);
        let mut tlang: Option<LanguageIdentifier> = None;
        let mut i: usize = start;
        proof {
            if start < toks@.len() {
                assert(tv[start as int] == toks@[start as int]@);
            }
        }
        if i < toks.len() && is_langtag_token_bytes(&toks[i]) && !crate::parser::is_stop_token_bytes(
            &toks[i],
            false,
            true,
        ) {
            match parse_langid_tokens(toks, i, true, true) {
                Err(_) => {
                    return Err(ParserError::InvalidLanguage);
                },
                Ok(pair) => {
                    proof {
                        assert(pair.1 > i);
                    }
                    tlang = Some(pair.0);
                    i = pair.1;
                },
            }
        }
        let ghost target = spec_parse_transform(tv, start as int);
        let mut kws: Vec<(u32, Vec<u64>)> = Vec::new();
        let mut cur: Option<u32> = None;
        let mut vals: Vec<u64> = Vec::new();
        proof {
            assert(kvs_views(Seq::<(u32, Vec<u64>)>::empty()) =~= Seq::<(u32, Seq<u64>)>::empty());
            assert(target == spec_parse_tfields_at(
                tv,
                i as int,
                tlang_parts_opt(&tlang),
                kvs_views(kws@),
                cur,
                vals@,
            ));
        }
        while i < toks.len()
            invariant
                start <= i <= toks@.len(),
                tv == token_views(toks@),
                target == spec_parse_transform(tv, start as int),
                target == spec_parse_tfields_at(
                    tv,
                    i as int,
                    tlang_parts_opt(&tlang),
                    kvs_views(kws@),
                    cur,
                    vals@,
                ),
                tlang matches Some(id) ==> id.wf(),
                wf_kvs(kvs_views(kws@)),
                cur matches Some(k) ==> wf_tkey(k),
                forall|v: int| 0 <= v < vals@.len() ==> wf_type(#[trigger] vals@[v]),
            decreases toks@.len() - i,
        {
            let t = &toks[i];
            proof {
                assert(tv[i as int] == t@);
            }
            if crate::parser::is_stop_token_bytes(t, false, true) {
                proof {
                    lemma_parse_tkey_wf(t@);
                    lemma_tf_flush_wf(kvs_views(kws@), cur, vals@);
                }
                if let Some(open_key) = cur {
                    kvs_insert_vec(&mut kws, open_key, vals);
                }
                vals = Vec::new();
                let low = crate::codec::bytes_to_lower(t);
                cur = Some(crate::codec::pack4_bytes(&low));
            } else if cur.is_some() && crate::extensions::is_type_token_bytes(t) {
                match parse_type_bytes(t) {
                    Err(e) => {
                        return Err(e);
                    },
                    Ok(None) => {},
                    Ok(Some(v)) => {
                        proof {
                            lemma_parse_type_wf(t@);
                        }
                        vals.push(v);
                    },
                }
            } else {
                proof {
                    lemma_tf_flush_wf(kvs_views(kws@), cur, vals@);
                }
                if let Some(open_key) = cur {
                    kvs_insert_vec(&mut kws, open_key, vals);
                }
                let tx = TransformExtensionList { tlang, tfields: kws };
                return Ok((tx, i));
            }
            i = i + 1;
        }
        proof {
            lemma_tf_flush_wf(kvs_views(kws@), cur, vals@);
        }
        if let Some(open_key) = cur {
            kvs_insert_vec(&mut kws, open_key, vals);
        }
        let tx = TransformExtensionList { tlang, tfields: kws };
        Ok((tx, i))
    }
}

/// The parts of an optional owned identifier.
pub open spec fn tlang_parts_opt(t: &Option<LanguageIdentifier>) -> Option<LangIdParts> {
    match t {
        None => None,
        Some(id) => Some(id.parts()),
    }
}

fn is_langtag_token_bytes(t: &Vec<u8>) -> (r: bool)
    ensures
        r == is_langtag_token(t@),
{
    let n = t.len();
    2 <= n && n <= 8 && crate::subtags::all_alpha(t)
}

proof fn lemma_parse_tkey_wf(t: Seq<u8>)
    requires
        is_tkey_token(t),
    ensures
        wf_tkey(pack4(lower_seq(t))),
{
    let low = lower_seq(t);
    assert(forall|i: int| 0 <= i < low.len() ==> is_lower_alnum(#[trigger] low[i]));
    crate::codec::lemma_pack4_wf(low, 2, 2);
    assert(low[0] == crate::codec::lower_byte(t[0]));
    assert(low[1] == crate::codec::lower_byte(t[1]));
}

proof fn lemma_tf_flush_wf(
    kws: Seq<(u32, Seq<u64>)>,
    cur: Option<u32>,
    vals: Seq<u64>,
)
    requires
        wf_kvs(kws),
        cur matches Some(k) ==> wf_tkey(k),
        forall|v: int| 0 <= v < vals.len() ==> wf_type(#[trigger] vals[v]),
    ensures
        wf_kvs(tf_flush(kws, cur, vals)),
{
    match cur {
        None => {},
        Some(k) => {
            lemma_tfields_insert_wf(kws, k, vals);
        },
    }
}

// ---------------------------------------------------------------------------
// Serialization of the transform section
// ---------------------------------------------------------------------------

/// Canonical text: nothing when empty, else `-t`, the source language if
/// any, then the fields in key order.
pub open spec fn serialize_transform(t: TransParts) -> Seq<u8> {
    if t.tlang is None && t.tfields.len() == 0 {
        Seq::empty()
    } else {
        seq![45u8, 116u8] + (match t.tlang {
            None => Seq::<u8>::empty(),
            Some(p) => seq![45u8] + serialize_langid(p),
        }) + kvs_bytes(t.tfields)
    }
}

impl TransformExtensionList {
    /// Appends the canonical text of the section.
    pub fn write_bytes(&self, out: &mut Vec<u8>)
        ensures
            final(out)@ == old(out)@ + serialize_transform(self.parts()),
    {
        if self.tlang.is_none() && self.tfields.len() == 0 {
            return ;
        }
        let ghost base = out@;
        out.push(45);
        out.push(116);
        match &self.tlang {
            None => {},
            Some(id) => {
                out.push(45);
                id.write_bytes(out);
            },
        }
        push_kvs(out, &self.tfields);
        proof {
            assert(out@ =~= base + serialize_transform(self.parts()));
        }
    }
}

impl PartialEq for TransformExtensionList {
    fn eq(&self, other: &Self) -> (r: bool) {
        let lang_eq = match (&self.tlang, &other.tlang) {
            (None, None) => true,
            (Some(a), Some(b)) => *a == *b,
            _ => false,
        };
        if !lang_eq {
            proof {
                match (&self.tlang, &other.tlang) {
                    (Some(a), Some(b)) => {
                        if a.parts() == b.parts() {
                            assert(a.language == b.language && a.script == b.script && a.region
                                == b.region && a.variants@ == b.variants@);
                        }
                    },
                    _ => {},
                }
            }
            return false;
        }
        if self.tfields.len() != other.tfields.len() {
            proof {
                assert(kvs_views(self.tfields@).len() == self.tfields@.len());
                assert(kvs_views(other.tfields@).len() == other.tfields@.len());
            }
            return false;
        }
        let mut i: usize = 0;
        while i < self.tfields.len()
            invariant
                i <= self.tfields@.len(),
                self.tfields@.len() == other.tfields@.len(),
                tlang_parts(self) == tlang_parts(other),
                forall|j: int|
                    0 <= j < i ==> (#[trigger] self.tfields@[j]).0 == other.tfields@[j].0
                        && self.tfields@[j].1@ == other.tfields@[j].1@,
            decreases self.tfields@.len() - i,
        {
            if self.tfields[i].0 != other.tfields[i].0 {
                proof {
                    assert(kvs_views(self.tfields@)[i as int].0 == self.tfields@[i as int].0);
                    assert(kvs_views(other.tfields@)[i as int].0 == other.tfields@[i as int].0);
                }
                return false;
            }
            if !vec_u64_eq(&self.tfields[i].1, &other.tfields[i].1) {
                proof {
                    assert(kvs_views(self.tfields@)[i as int].1 == self.tfields@[i as int].1@);
                    assert(kvs_views(other.tfields@)[i as int].1 == other.tfields@[i as int].1@);
                }
                return false;
            }
            i = i + 1;
        }
        proof {
            assert(kvs_views(self.tfields@) =~= kvs_views(other.tfields@));
        }
        true
    }
}

impl vstd::std_specs::cmp::PartialEqSpecImpl for TransformExtensionList {
    open spec fn obeys_eq_spec() -> bool {
        true
    }

    open spec fn eq_spec(&self, other: &Self) -> bool {
        tlang_parts(self) == tlang_parts(other) && kvs_views(self.tfields@) == kvs_views(
            other.tfields@,
        )
    }
}

impl Default for TransformExtensionList {
    /// The empty transform section.
    fn default() -> (r: Self)
        ensures
            r.tlang is None,
            r.tfields@.len() == 0,
            r.wf(),
    {
        TransformExtensionList { tlang: None, tfields: Vec::new() }
    }
}

} // verus!
