//! BCP-47 extension subtags: the Unicode (`u`), Transform (`t`) and
//! Private (`x`) sections of a locale.
//!
//! A shared dispatcher reads a one-character singleton token and hands the
//! following tokens to the matching sub-parser, which consumes them until
//! the next singleton.  Canonical serialization emits the transform block,
//! then the unicode block, then the private block.

pub mod unicode;
pub mod transform;
pub mod private;

use vstd::prelude::*;
use crate::codec::{
    is_ascii_alpha, is_ascii_alphanumeric, is_ascii_digit, lower_seq, pack4, pack8, unpack4,
    unpack8, wf_enc4, wf_enc8, lemma_pack4_wf, lemma_pack8_wf, byte_is_alphanumeric,
    bytes_to_lower, pack4_bytes, pack8_bytes, unpack4_bytes, all_ascii,
};
use crate::errors::ParserError;
use crate::langid::{variants_bytes, push_all, push_list8};
use crate::subtags::{is_lower_alnum, all_alphanumeric};
use crate::tokens::{token_views, tokenize};
use crate::extensions::unicode::{UnicodeExtensionList, UniParts, spec_parse_unicode, wf_unicode};
use crate::extensions::transform::{
    TransformExtensionList, TransParts, spec_parse_transform, wf_transform,
};
use crate::extensions::private::{PrivateExtensionList, PrivParts, spec_parse_private, wf_private};

verus! {

// ---------------------------------------------------------------------------
// Shared token grammar of the extension sections
// ---------------------------------------------------------------------------

/// A type, attribute or transform value token: three to eight
/// alphanumerics.
pub open spec fn is_type_token(t: Seq<u8>) -> bool {
    3 <= t.len() <= 8 && (forall|i: int|
        0 <= i < t.len() ==> is_ascii_alphanumeric(#[trigger] t[i]))
}

/// A unicode keyword key: an alphanumeric then a letter.
pub open spec fn is_ukey_token(t: Seq<u8>) -> bool {
    t.len() == 2 && is_ascii_alphanumeric(t[0]) && is_ascii_alpha(t[1])
}

/// A private tag: one to eight alphanumerics.
pub open spec fn is_private_token(t: Seq<u8>) -> bool {
    1 <= t.len() <= 8 && (forall|i: int|
        0 <= i < t.len() ==> is_ascii_alphanumeric(#[trigger] t[i]))
}

/// The literal whose value is elided: a bare keyword means `true`.
pub open spec fn true_bytes() -> Seq<u8> {
    seq![116u8, 114u8, 117u8, 101u8]
}

/// A stored extension key of either kind: two lower-case alphanumerics.
pub open spec fn wf_key(k: u32) -> bool {
    &&& wf_enc4(k, 2, 2)
    &&& forall|i: int| 0 <= i < unpack4(k).len() ==> is_lower_alnum(#[trigger] unpack4(k)[i])
}

/// A stored type or transform value: three to eight lower-case
/// alphanumerics, never the elided `true`.
pub open spec fn wf_type(v: u64) -> bool {
    &&& wf_enc8(v, 3, 8)
    &&& forall|i: int| 0 <= i < unpack8(v).len() ==> is_lower_alnum(#[trigger] unpack8(v)[i])
    &&& unpack8(v) != true_bytes()
}

/// A stored attribute: three to eight lower-case alphanumerics.
pub open spec fn wf_attribute(v: u64) -> bool {
    &&& wf_enc8(v, 3, 8)
    &&& forall|i: int| 0 <= i < unpack8(v).len() ==> is_lower_alnum(#[trigger] unpack8(v)[i])
}

/// A stored private tag: one to eight lower-case alphanumerics.
pub open spec fn wf_private_tag(v: u64) -> bool {
    &&& wf_enc8(v, 1, 8)
    &&& forall|i: int| 0 <= i < unpack8(v).len() ==> is_lower_alnum(#[trigger] unpack8(v)[i])
}

pub proof fn lemma_parse_key_wf(t: Seq<u8>)
    requires
        t.len() == 2,
        is_ascii_alphanumeric(t[0]),
        is_ascii_alphanumeric(t[1]),
    ensures
        wf_key(pack4(lower_seq(t))),
{
    let low = lower_seq(t);
    assert(forall|i: int| 0 <= i < low.len() ==> is_lower_alnum(#[trigger] low[i]));
    lemma_pack4_wf(low, 2, 2);
}

pub proof fn lemma_parse_type_wf(t: Seq<u8>)
    requires
        is_type_token(t),
        lower_seq(t) != true_bytes(),
    ensures
        wf_type(pack8(lower_seq(t))),
{
    let low = lower_seq(t);
    assert(forall|i: int| 0 <= i < low.len() ==> is_lower_alnum(#[trigger] low[i]));
    lemma_pack8_wf(low, 3, 8);
}

pub proof fn lemma_parse_attribute_wf(t: Seq<u8>)
    requires
        is_type_token(t),
    ensures
        wf_attribute(pack8(lower_seq(t))),
{
    let low = lower_seq(t);
    assert(forall|i: int| 0 <= i < low.len() ==> is_lower_alnum(#[trigger] low[i]));
    lemma_pack8_wf(low, 3, 8);
}

pub proof fn lemma_parse_private_wf(t: Seq<u8>)
    requires
        is_private_token(t),
    ensures
        wf_private_tag(pack8(lower_seq(t))),
{
    let low = lower_seq(t);
    assert(forall|i: int| 0 <= i < low.len() ==> is_lower_alnum(#[trigger] low[i]));
    lemma_pack8_wf(low, 1, 8);
}

// ---------------------------------------------------------------------------
// Sorted key-value association lists
// ---------------------------------------------------------------------------

/// Keys strictly ascending.
pub open spec fn kvs_sorted(kws: Seq<(u32, Seq<u64>)>) -> bool {
    forall|i: int, j: int| 0 <= i < j < kws.len() ==> kws[i].0 < kws[j].0
}

/// Inserts or replaces the entry for `k`, keeping keys ascending.
pub open spec fn kvs_insert(kws: Seq<(u32, Seq<u64>)>, k: u32, vals: Seq<u64>) -> Seq<
    (u32, Seq<u64>),
>
    decreases kws.len(),
{
    if kws.len() == 0 {
        seq![(k, vals)]
    } else if k < kws[0].0 {
        seq![(k, vals)] + kws
    } else if k == kws[0].0 {
        seq![(k, vals)] + kws.drop_first()
    } else {
        seq![kws[0]] + kvs_insert(kws.drop_first(), k, vals)
    }
}

/// The value list stored under `k`, if any.
pub open spec fn kvs_get(kws: Seq<(u32, Seq<u64>)>, k: u32) -> Option<Seq<u64>>
    decreases kws.len(),
{
    if kws.len() == 0 {
        None
    } else if kws[0].0 == k {
        Some(kws[0].1)
    } else {
        kvs_get(kws.drop_first(), k)
    }
}

/// The association list without the entry for `k`.
pub open spec fn kvs_remove(kws: Seq<(u32, Seq<u64>)>, k: u32) -> Seq<(u32, Seq<u64>)>
    decreases kws.len(),
{
    if kws.len() == 0 {
        kws
    } else if kws[0].0 == k {
        kws.drop_first()
    } else {
        seq![kws[0]] + kvs_remove(kws.drop_first(), k)
    }
}

/// How far insertion walks: past every key below `k`.
pub proof fn lemma_kvs_insert_at(kws: Seq<(u32, Seq<u64>)>, k: u32, vals: Seq<u64>, i: int)
    requires
        0 <= i <= kws.len(),
        forall|j: int| 0 <= j < i ==> (#[trigger] kws[j]).0 < k,
        i < kws.len() ==> kws[i].0 >= k,
    ensures
        kvs_insert(kws, k, vals) == if i < kws.len() && kws[i].0 == k {
            kws.take(i) + seq![(k, vals)] + kws.skip(i + 1)
        } else {
            kws.take(i) + seq![(k, vals)] + kws.skip(i)
        },
    decreases i,
{
    if i == 0 {
        if kws.len() == 0 {
            assert(kvs_insert(kws, k, vals) =~= kws.take(0) + seq![(k, vals)] + kws.skip(0));
        } else if kws[0].0 == k {
            assert(kvs_insert(kws, k, vals) =~= kws.take(0) + seq![(k, vals)] + kws.skip(1));
        } else {
            assert(k < kws[0].0);
            assert(kvs_insert(kws, k, vals) =~= kws.take(0) + seq![(k, vals)] + kws.skip(0));
        }
    } else {
        let tail = kws.drop_first();
        assert(kws[0].0 < k);
        assert(forall|j: int| 0 <= j < i - 1 ==> (#[trigger] tail[j]) == kws[j + 1]);
        assert(i - 1 < tail.len() ==> tail[i - 1] == kws[i]);
        lemma_kvs_insert_at(tail, k, vals, i - 1);
        if i < kws.len() && kws[i].0 == k {
            assert(seq![kws[0]] + (tail.take(i - 1) + seq![(k, vals)] + tail.skip(i)) =~= kws.take(
                i,
            ) + seq![(k, vals)] + kws.skip(i + 1));
        } else {
            assert(seq![kws[0]] + (tail.take(i - 1) + seq![(k, vals)] + tail.skip(i - 1))
                =~= kws.take(i) + seq![(k, vals)] + kws.skip(i));
        }
    }
}

/// Insertion keeps the keys ascending and the entries well formed.
pub proof fn lemma_kvs_insert_wf(kws: Seq<(u32, Seq<u64>)>, k: u32, vals: Seq<u64>)
    requires
        kvs_sorted(kws),
    ensures
        kvs_sorted(kvs_insert(kws, k, vals)),
        forall|j: int|
            0 <= j < kvs_insert(kws, k, vals).len() ==> (#[trigger] kvs_insert(kws, k, vals)[j])
                == (k, vals) || kws.contains(kvs_insert(kws, k, vals)[j]),
    decreases kws.len(),
{
    let r = kvs_insert(kws, k, vals);
    if kws.len() == 0 {
    } else if k < kws[0].0 {
        assert forall|j: int| 0 <= j < r.len() implies (#[trigger] r[j]) == (k, vals)
            || kws.contains(r[j]) by {
            if j > 0 {
                assert(kws[j - 1] == r[j]);
            }
        }
    } else if k == kws[0].0 {
        assert forall|j: int| 0 <= j < r.len() implies (#[trigger] r[j]) == (k, vals)
            || kws.contains(r[j]) by {
            if j > 0 {
                assert(kws[j] == r[j]);
            }
        }
    } else {
        let tail = kws.drop_first();
        assert(kvs_sorted(tail)) by {
            assert(forall|a: int, b: int|
                0 <= a < b < tail.len() ==> tail[a] == kws[a + 1] && tail[b] == kws[b + 1]);
        }
        lemma_kvs_insert_wf(tail, k, vals);
        let rt = kvs_insert(tail, k, vals);
        assert(r == seq![kws[0]] + rt);
        assert forall|j: int| 0 <= j < r.len() implies (#[trigger] r[j]) == (k, vals)
            || kws.contains(r[j]) by {
            if j == 0 {
                assert(kws[0] == r[0]);
                assert(kws.contains(kws[0]));
            } else {
                assert(rt[j - 1] == r[j]);
                if r[j] != (k, vals) {
                    assert(tail.contains(r[j]));
                    let a = choose|a: int| 0 <= a < tail.len() && tail[a] == r[j];
                    assert(kws[a + 1] == r[j]);
                }
            }
        }
        assert forall|a: int, b: int| 0 <= a < b < r.len() implies r[a].0 < r[b].0 by {
            if a == 0 {
                assert(r[b] == rt[b - 1]);
                if rt[b - 1] == (k, vals) {
                    assert(kws[0].0 < k);
                } else {
                    assert(tail.contains(rt[b - 1]));
                    let c = choose|c: int| 0 <= c < tail.len() && tail[c] == rt[b - 1];
                    assert(kws[c + 1] == rt[b - 1]);
                    assert(kws[0].0 < kws[c + 1].0);
                }
            } else {
                assert(r[a] == rt[a - 1] && r[b] == rt[b - 1]);
            }
        }
    }
}

} // verus!

verus! {

// ---------------------------------------------------------------------------
// Token parsers shared by the sections
// ---------------------------------------------------------------------------

pub open spec fn spec_parse_ukey(t: Seq<u8>) -> Result<u32, ParserError> {
    if !is_ukey_token(t) {
        Err(ParserError::InvalidSubtag)
    } else {
        Ok(pack4(lower_seq(t)))
    }
}

/// A transform key: a letter then a digit.
pub open spec fn spec_parse_tkey(t: Seq<u8>) -> Result<u32, ParserError> {
    if !(t.len() == 2 && is_ascii_alpha(t[0]) && is_ascii_digit(t[1])) {
        Err(ParserError::InvalidSubtag)
    } else {
        Ok(pack4(lower_seq(t)))
    }
}

/// A type or transform value; the literal `true` is elided to `None`.
pub open spec fn spec_parse_type(t: Seq<u8>) -> Result<Option<u64>, ParserError> {
    if !is_type_token(t) {
        Err(ParserError::InvalidSubtag)
    } else if lower_seq(t) == true_bytes() {
        Ok(None)
    } else {
        Ok(Some(pack8(lower_seq(t))))
    }
}

pub open spec fn spec_parse_attribute(t: Seq<u8>) -> Result<u64, ParserError> {
    if !is_type_token(t) {
        Err(ParserError::InvalidSubtag)
    } else {
        Ok(pack8(lower_seq(t)))
    }
}

pub open spec fn spec_parse_private_tag(t: Seq<u8>) -> Result<u64, ParserError> {
    if !is_private_token(t) {
        Err(ParserError::InvalidSubtag)
    } else {
        Ok(pack8(lower_seq(t)))
    }
}

pub fn parse_ukey_bytes(t: &Vec<u8>) -> (r: Result<u32, ParserError>)
    ensures
        r == spec_parse_ukey(t@),
{
    if t.len() != 2 || !byte_is_alphanumeric(t[0]) || !crate::codec::byte_is_alpha(t[1]) {
        return Err(ParserError::InvalidSubtag);
    }
    let low = bytes_to_lower(t);
    Ok(pack4_bytes(&low))
}

pub fn parse_tkey_bytes(t: &Vec<u8>) -> (r: Result<u32, ParserError>)
    ensures
        r == spec_parse_tkey(t@),
{
    if t.len() != 2 || !crate::codec::byte_is_alpha(t[0]) || !crate::codec::byte_is_digit(t[1]) {
        return Err(ParserError::InvalidSubtag);
    }
    let low = bytes_to_lower(t);
    Ok(pack4_bytes(&low))
}

pub fn is_type_token_bytes(t: &Vec<u8>) -> (r: bool)
    ensures
        r == is_type_token(t@),
{
    let n = t.len();
    3 <= n && n <= 8 && all_alphanumeric(t)
}

pub fn is_private_token_bytes(t: &Vec<u8>) -> (r: bool)
    ensures
        r == is_private_token(t@),
{
    let n = t.len();
    1 <= n && n <= 8 && all_alphanumeric(t)
}

pub fn parse_type_bytes(t: &Vec<u8>) -> (r: Result<Option<u64>, ParserError>)
    ensures
        r == spec_parse_type(t@),
{
    if !is_type_token_bytes(t) {
        return Err(ParserError::InvalidSubtag);
    }
    let low = bytes_to_lower(t);
    if low.len() == 4 && low[0] == 116 && low[1] == 114 && low[2] == 117 && low[3] == 101 {
        proof {
            assert(lower_seq(t@) =~= true_bytes());
        }
        Ok(None)
    } else {
        proof {
            if lower_seq(t@) == true_bytes() {
                assert(low@[0] == 116 && low@[1] == 114 && low@[2] == 117 && low@[3] == 101);
            }
        }
        Ok(Some(pack8_bytes(&low)))
    }
}

pub fn parse_attribute_bytes(t: &Vec<u8>) -> (r: Result<u64, ParserError>)
    ensures
        r == spec_parse_attribute(t@),
{
    if !is_type_token_bytes(t) {
        return Err(ParserError::InvalidSubtag);
    }
    let low = bytes_to_lower(t);
    Ok(pack8_bytes(&low))
}

pub fn parse_private_tag_bytes(t: &Vec<u8>) -> (r: Result<u64, ParserError>)
    ensures
        r == spec_parse_private_tag(t@),
{
    if !is_private_token_bytes(t) {
        return Err(ParserError::InvalidSubtag);
    }
    let low = bytes_to_lower(t);
    Ok(pack8_bytes(&low))
}

// ---------------------------------------------------------------------------
// Executable association-list operations
// ---------------------------------------------------------------------------

/// The views of the stored key-value pairs.
pub open spec fn kvs_views(s: Seq<(u32, Vec<u64>)>) -> Seq<(u32, Seq<u64>)> {
    s.map_values(|p: (u32, Vec<u64>)| (p.0, p.1@))
}

pub proof fn lemma_kvs_get_at(kws: Seq<(u32, Seq<u64>)>, k: u32, i: int)
    requires
        0 <= i <= kws.len(),
        forall|j: int| 0 <= j < i ==> (#[trigger] kws[j]).0 != k,
        i < kws.len() ==> kws[i].0 == k,
    ensures
        kvs_get(kws, k) == if i < kws.len() {
            Some(kws[i].1)
        } else {
            None::<Seq<u64>>
        },
    decreases i,
{
    if i == 0 {
    } else {
        let tail = kws.drop_first();
        assert(forall|j: int| 0 <= j < i - 1 ==> (#[trigger] tail[j]) == kws[j + 1]);
        assert(i - 1 < tail.len() ==> tail[i - 1] == kws[i]);
        lemma_kvs_get_at(tail, k, i - 1);
    }
}

pub proof fn lemma_kvs_remove_at(kws: Seq<(u32, Seq<u64>)>, k: u32, i: int)
    requires
        0 <= i <= kws.len(),
        forall|j: int| 0 <= j < i ==> (#[trigger] kws[j]).0 != k,
        i < kws.len() ==> kws[i].0 == k,
    ensures
        kvs_remove(kws, k) == if i < kws.len() {
            kws.take(i) + kws.skip(i + 1)
        } else {
            kws
        },
    decreases i,
{
    if i == 0 {
        if kws.len() > 0 && kws[0].0 == k {
            assert(kvs_remove(kws, k) =~= kws.take(0) + kws.skip(1));
        }
    } else {
        let tail = kws.drop_first();
        assert(forall|j: int| 0 <= j < i - 1 ==> (#[trigger] tail[j]) == kws[j + 1]);
        assert(i - 1 < tail.len() ==> tail[i - 1] == kws[i]);
        lemma_kvs_remove_at(tail, k, i - 1);
        if i < kws.len() {
            assert(seq![kws[0]] + (tail.take(i - 1) + tail.skip(i)) =~= kws.take(i) + kws.skip(
                i + 1,
            ));
        } else {
            assert(seq![kws[0]] + tail =~= kws);
        }
    }
}

/// Removal keeps the keys ascending.
pub proof fn lemma_kvs_remove_sorted(kws: Seq<(u32, Seq<u64>)>, k: u32)
    requires
        kvs_sorted(kws),
    ensures
        kvs_sorted(kvs_remove(kws, k)),
        forall|j: int|
            0 <= j < kvs_remove(kws, k).len() ==> kws.contains(#[trigger] kvs_remove(kws, k)[j]),
    decreases kws.len(),
{
    let r = kvs_remove(kws, k);
    if kws.len() == 0 {
    } else if kws[0].0 == k {
        assert forall|j: int| 0 <= j < r.len() implies kws.contains(#[trigger] r[j]) by {
            assert(kws[j + 1] == r[j]);
        }
        assert(forall|a: int, b: int|
            0 <= a < b < r.len() ==> r[a] == kws[a + 1] && r[b] == kws[b + 1]);
    } else {
        let tail = kws.drop_first();
        assert(kvs_sorted(tail)) by {
            assert(forall|a: int, b: int|
                0 <= a < b < tail.len() ==> tail[a] == kws[a + 1] && tail[b] == kws[b + 1]);
        }
        lemma_kvs_remove_sorted(tail, k);
        let rt = kvs_remove(tail, k);
        assert(r == seq![kws[0]] + rt);
        assert forall|j: int| 0 <= j < r.len() implies kws.contains(#[trigger] r[j]) by {
            if j == 0 {
                assert(kws[0] == r[0]);
            } else {
                assert(rt[j - 1] == r[j]);
                assert(tail.contains(r[j]));
                let a = choose|a: int| 0 <= a < tail.len() && tail[a] == r[j];
                assert(kws[a + 1] == r[j]);
            }
        }
        assert forall|a: int, b: int| 0 <= a < b < r.len() implies r[a].0 < r[b].0 by {
            if a == 0 {
                assert(r[b] == rt[b - 1]);
                assert(tail.contains(rt[b - 1]));
                let c = choose|c: int| 0 <= c < tail.len() && tail[c] == rt[b - 1];
                assert(kws[c + 1] == rt[b - 1]);
                assert(kws[0].0 < kws[c + 1].0);
            } else {
                assert(r[a] == rt[a - 1] && r[b] == rt[b - 1]);
            }
        }
    }
}

/// Inserts or replaces the entry for `k` in the ascending vector.
pub fn kvs_insert_vec(kws: &mut Vec<(u32, Vec<u64>)>, k: u32, vals: Vec<u64>)
    requires
        kvs_sorted(kvs_views(old(kws)@)),
    ensures
        kvs_views(final(kws)@) == kvs_insert(kvs_views(old(kws)@), k, vals@),
{
    let ghost target = kvs_insert(kvs_views(kws@), k, vals@);
    let mut i: usize = 0;
    while i < kws.len() && kws[i].0 < k
        invariant
            i <= kws@.len(),
            kws@ == old(kws)@,
            forall|j: int| 0 <= j < i ==> (#[trigger] kws@[j]).0 < k,
        decreases kws@.len() - i,
    {
        i = i + 1;
    }
    proof {
        assert(forall|j: int|
            0 <= j < i ==> (#[trigger] kvs_views(kws@)[j]).0 == kws@[j].0);
        lemma_kvs_insert_at(kvs_views(kws@), k, vals@, i as int);
    }
    if i < kws.len() && kws[i].0 == k {
        kws.set(i, (k, vals));
        proof {
            assert(kvs_views(kws@) =~= kvs_views(old(kws)@).take(i as int) + seq![(k, vals@)]
                + kvs_views(old(kws)@).skip(i as int + 1));
        }
    } else {
        kws.insert(i, (k, vals));
        proof {
            assert(kvs_views(kws@) =~= kvs_views(old(kws)@).take(i as int) + seq![(k, vals@)]
                + kvs_views(old(kws)@).skip(i as int));
        }
    }
}

/// Looks up the entry for `k` and copies its values out.
pub fn kvs_get_vec(kws: &Vec<(u32, Vec<u64>)>, k: u32) -> (r: Option<Vec<u64>>)
    ensures
        match r {
            Some(vals) => kvs_get(kvs_views(kws@), k) == Some(vals@),
            None => kvs_get(kvs_views(kws@), k) is None,
        },
{
    let mut i: usize = 0;
    while i < kws.len() && kws[i].0 != k
        invariant
            i <= kws@.len(),
            forall|j: int| 0 <= j < i ==> (#[trigger] kws@[j]).0 != k,
        decreases kws@.len() - i,
    {
        i = i + 1;
    }
    proof {
        assert(forall|j: int|
            0 <= j < i ==> (#[trigger] kvs_views(kws@)[j]).0 == kws@[j].0);
        lemma_kvs_get_at(kvs_views(kws@), k, i as int);
    }
    if i < kws.len() {
        let mut out: Vec<u64> = Vec::new();
        let vals = &kws[i].1;
        let mut j: usize = 0;
        while j < vals.len()
            invariant
                j <= vals@.len(),
                vals@ == kws@[i as int].1@,
                i < kws@.len(),
                out@ =~= vals@.take(j as int),
            decreases vals@.len() - j,
        {
            out.push(vals[j]);
            assert(out@ =~= vals@.take(j + 1));
            j = j + 1;
        }
        proof {
            assert(out@ =~= kws@[i as int].1@);
            assert(kvs_views(kws@)[i as int].1 == kws@[i as int].1@);
        }
        Some(out)
    } else {
        None
    }
}

/// Removes the entry for `k`; reports whether one was there.
pub fn kvs_remove_vec(kws: &mut Vec<(u32, Vec<u64>)>, k: u32) -> (r: bool)
    ensures
        kvs_views(final(kws)@) == kvs_remove(kvs_views(old(kws)@), k),
        r == (kvs_get(kvs_views(old(kws)@), k) is Some),
{
    let mut i: usize = 0;
    while i < kws.len() && kws[i].0 != k
        invariant
            i <= kws@.len(),
            kws@ == old(kws)@,
            forall|j: int| 0 <= j < i ==> (#[trigger] kws@[j]).0 != k,
        decreases kws@.len() - i,
    {
        i = i + 1;
    }
    proof {
        assert(forall|j: int|
            0 <= j < i ==> (#[trigger] kvs_views(kws@)[j]).0 == kws@[j].0);
        lemma_kvs_get_at(kvs_views(kws@), k, i as int);
        lemma_kvs_remove_at(kvs_views(kws@), k, i as int);
    }
    if i < kws.len() {
        kws.remove(i);
        proof {
            assert(kvs_views(kws@) =~= kvs_views(old(kws)@).take(i as int) + kvs_views(
                old(kws)@,
            ).skip(i as int + 1));
        }
        true
    } else {
        false
    }
}

// ---------------------------------------------------------------------------
// Serialization of key-value lists
// ---------------------------------------------------------------------------

/// Each entry: hyphen, key, then its hyphen-prefixed values.
pub open spec fn kvs_bytes(kws: Seq<(u32, Seq<u64>)>) -> Seq<u8>
    decreases kws.len(),
{
    if kws.len() == 0 {
        Seq::empty()
    } else {
        seq![45u8] + unpack4(kws[0].0) + variants_bytes(kws[0].1) + kvs_bytes(kws.drop_first())
    }
}

pub proof fn lemma_kvs_bytes_push(kws: Seq<(u32, Seq<u64>)>, k: u32, vals: Seq<u64>)
    ensures
        kvs_bytes(kws.push((k, vals))) == kvs_bytes(kws) + (seq![45u8] + unpack4(k)
            + variants_bytes(vals)),
    decreases kws.len(),
{
    let p = kws.push((k, vals));
    if kws.len() == 0 {
        assert(p.len() == 1);
        assert(p[0] == (k, vals));
        assert(p.drop_first() =~= Seq::<(u32, Seq<u64>)>::empty());
        assert(kvs_bytes(p) == seq![45u8] + unpack4(p[0].0) + variants_bytes(p[0].1) + kvs_bytes(
            p.drop_first(),
        ));
        assert(kvs_bytes(p) =~= kvs_bytes(kws) + (seq![45u8] + unpack4(k) + variants_bytes(vals)));
    } else {
        assert(p.drop_first() =~= kws.drop_first().push((k, vals)));
        lemma_kvs_bytes_push(kws.drop_first(), k, vals);
        assert(p.len() != 0);
        assert(p[0] == kws[0]);
        assert(kvs_bytes(p) == seq![45u8] + unpack4(p[0].0) + variants_bytes(p[0].1) + kvs_bytes(
            p.drop_first(),
        ));
        assert(kvs_bytes(kws) == seq![45u8] + unpack4(kws[0].0) + variants_bytes(kws[0].1)
            + kvs_bytes(kws.drop_first()));
        assert(kvs_bytes(p) =~= kvs_bytes(kws) + (seq![45u8] + unpack4(k) + variants_bytes(vals)));
    }
}

/// Writes the canonical key-value text.
pub fn push_kvs(out: &mut Vec<u8>, kws: &Vec<(u32, Vec<u64>)>)
    ensures
        final(out)@ == old(out)@ + kvs_bytes(kvs_views(kws@)),
{
    let ghost base = out@;
    let mut i: usize = 0;
    while i < kws.len()
        invariant
            i <= kws@.len(),
            out@ =~= base + kvs_bytes(kvs_views(kws@).take(i as int)),
        decreases kws@.len() - i,
    {
        out.push(45);
        let kb = unpack4_bytes(kws[i].0);
        push_all(out, &kb);
        push_list8(out, &kws[i].1);
        proof {
            assert(kvs_views(kws@).take(i + 1) =~= kvs_views(kws@).take(i as int).push(
                kvs_views(kws@)[i as int],
            ));
            lemma_kvs_bytes_push(
                kvs_views(kws@).take(i as int),
                kws@[i as int].0,
                kws@[i as int].1@,
            );
            assert(kvs_views(kws@)[i as int] == (kws@[i as int].0, kws@[i as int].1@));
        }
        i = i + 1;
    }
    proof {
        assert(kvs_views(kws@).take(kws@.len() as int) =~= kvs_views(kws@));
    }
}

/// A well-formed key-value list: ascending well-formed keys, well-formed
/// values.
pub open spec fn wf_kvs(kws: Seq<(u32, Seq<u64>)>) -> bool {
    &&& kvs_sorted(kws)
    &&& forall|j: int| 0 <= j < kws.len() ==> wf_key((#[trigger] kws[j]).0)
    &&& forall|j: int, v: int|
        0 <= j < kws.len() && 0 <= v < kws[j].1.len() ==> wf_type(#[trigger] kws[j].1[v])
}

pub proof fn lemma_kvs_bytes_ascii(kws: Seq<(u32, Seq<u64>)>)
    requires
        wf_kvs(kws),
    ensures
        all_ascii(kvs_bytes(kws)),
    decreases kws.len(),
{
    if kws.len() > 0 {
        assert(wf_key(kws[0].0));
        assert(forall|i: int|
            0 <= i < unpack4(kws[0].0).len() ==> is_lower_alnum(#[trigger] unpack4(kws[0].0)[i]));
        assert(forall|v: int| 0 <= v < kws[0].1.len() ==> wf_type(#[trigger] kws[0].1[v]));
        assert(forall|v: int|
            0 <= v < kws[0].1.len() ==> crate::subtags::wf_variant(#[trigger] kws[0].1[v])
                || wf_type(kws[0].1[v]));
        lemma_kvs_values_ascii(kws[0].1);
        let tail = kws.drop_first();
        assert(wf_kvs(tail)) by {
            assert(forall|j: int| 0 <= j < tail.len() ==> #[trigger] tail[j] == kws[j + 1]);
            assert(forall|a: int, b: int|
                0 <= a < b < tail.len() ==> tail[a] == kws[a + 1] && tail[b] == kws[b + 1]);
        }
        lemma_kvs_bytes_ascii(tail);
        let kb = unpack4(kws[0].0);
        let vb = variants_bytes(kws[0].1);
        let whole = seq![45u8] + kb + vb + kvs_bytes(tail);
        assert forall|i: int| 0 <= i < whole.len() implies #[trigger] whole[i] < 128 by {
            if i == 0 {
            } else if i < 1 + kb.len() {
                assert(whole[i] == kb[i - 1]);
            } else if i < 1 + kb.len() + vb.len() {
                assert(whole[i] == vb[i - 1 - kb.len()]);
            } else {
                assert(whole[i] == kvs_bytes(tail)[i - 1 - kb.len() - vb.len()]);
            }
        }
    }
}

/// The value text of one entry is ASCII.
proof fn lemma_kvs_values_ascii(vals: Seq<u64>)
    requires
        forall|v: int| 0 <= v < vals.len() ==> wf_type(#[trigger] vals[v]),
    ensures
        all_ascii(variants_bytes(vals)),
    decreases vals.len(),
{
    if vals.len() > 0 {
        assert(wf_type(vals[0]));
        assert(forall|i: int|
            0 <= i < unpack8(vals[0]).len() ==> is_lower_alnum(#[trigger] unpack8(vals[0])[i]));
        assert(forall|v: int| 0 <= v < vals.drop_first().len() ==> wf_type(
            #[trigger] vals.drop_first()[v],
        ));
        lemma_kvs_values_ascii(vals.drop_first());
        let whole = seq![45u8] + unpack8(vals[0]) + variants_bytes(vals.drop_first());
        assert forall|i: int| 0 <= i < whole.len() implies #[trigger] whole[i] < 128 by {
            if 1 <= i < 1 + unpack8(vals[0]).len() {
                assert(whole[i] == unpack8(vals[0])[i - 1]);
            } else if i >= 1 + unpack8(vals[0]).len() {
                assert(whole[i] == variants_bytes(vals.drop_first())[i - 1 - unpack8(
                    vals[0],
                ).len()]);
            }
        }
    }
}

} // verus!

verus! {

// ---------------------------------------------------------------------------
// The extension dispatcher
// ---------------------------------------------------------------------------

/// The kind named by a singleton byte.
#[derive(Debug, Clone, Copy, PartialEq, Eq, Structural)]
pub enum ExtensionType {
    Unicode,
    Transform,
    Other(char),
    Private,
}

/// What `from_byte` answers: `u`, `t` and `x` (either case) name the three
/// known sections, any other alphanumeric is an unrecognized singleton,
/// and anything else is malformed.
pub open spec fn spec_extension_type(key: u8) -> Result<ExtensionType, ParserError> {
    let low = crate::codec::lower_byte(key);
    if low == 117 {
        Ok(ExtensionType::Unicode)
    } else if low == 116 {
        Ok(ExtensionType::Transform)
    } else if low == 120 {
        Ok(ExtensionType::Private)
    } else if is_ascii_alphanumeric(low) {
        Ok(ExtensionType::Other(low as char))
    } else {
        Err(ParserError::InvalidExtension)
    }
}

impl ExtensionType {
    /// Classifies a singleton byte, case-insensitively.
    pub fn from_byte(key: u8) -> (r: Result<Self, ParserError>)
        ensures
            r == spec_extension_type(key),
    {
        let low = crate::codec::byte_to_lower(key);
        if low == 117 {
            Ok(ExtensionType::Unicode)
        } else if low == 116 {
            Ok(ExtensionType::Transform)
        } else if low == 120 {
            Ok(ExtensionType::Private)
        } else if byte_is_alphanumeric(low) {
            Ok(ExtensionType::Other(low as char))
        } else {
            Err(ParserError::InvalidExtension)
        }
    }
}

/// The abstract content of all extension sections together.
#[verifier::ext_equal]
pub struct ExtParts {
    pub unicode: UniParts,
    pub transform: TransParts,
    pub private: PrivParts,
}

pub open spec fn wf_extensions(e: ExtParts) -> bool {
    &&& wf_unicode(e.unicode)
    &&& wf_transform(e.transform)
    &&& wf_private(e.private)
}

pub open spec fn empty_ext_parts() -> ExtParts {
    ExtParts {
        unicode: UniParts { attributes: Seq::empty(), keywords: Seq::empty() },
        transform: TransParts { tlang: None, tfields: Seq::empty() },
        private: PrivParts { tags: Seq::empty() },
    }
}

/// The dispatcher: each singleton token selects a section parser, which
/// consumes tokens until the next singleton.  An empty token ends the
/// input; a longer or unrecognized token in singleton position is
/// malformed.  A repeated section replaces the earlier one.
pub open spec fn spec_parse_extensions_at(toks: Seq<Seq<u8>>, i: int, acc: ExtParts) -> Result<
    (ExtParts, int),
    ParserError,
>
    decreases toks.len() - i,
{
    if i < 0 || i >= toks.len() {
        Ok((acc, toks.len() as int))
    } else {
        let t = toks[i];
        if t.len() == 0 {
            Ok((acc, i + 1))
        } else if t.len() != 1 {
            Err(ParserError::InvalidExtension)
        } else {
            match spec_extension_type(t[0]) {
                Err(e) => Err(e),
                Ok(ExtensionType::Unicode) => match spec_parse_unicode(toks, i + 1) {
                    Err(e) => Err(e),
                    Ok(pair) => {
                        if i < pair.1 <= toks.len() {
                            spec_parse_extensions_at(
                                toks,
                                pair.1,
                                ExtParts {
                                    unicode: pair.0,
                                    transform: acc.transform,
                                    private: acc.private,
                                },
                            )
                        } else {
                            Err(ParserError::InvalidExtension)
                        }
                    },
                },
                Ok(ExtensionType::Transform) => match spec_parse_transform(toks, i + 1) {
                    Err(e) => Err(e),
                    Ok(pair) => {
                        if i < pair.1 <= toks.len() {
                            spec_parse_extensions_at(
                                toks,
                                pair.1,
                                ExtParts {
                                    unicode: acc.unicode,
                                    transform: pair.0,
                                    private: acc.private,
                                },
                            )
                        } else {
                            Err(ParserError::InvalidExtension)
                        }
                    },
                },
                Ok(ExtensionType::Private) => match spec_parse_private(toks, i + 1) {
                    Err(e) => Err(e),
                    Ok(pair) => {
                        if i < pair.1 <= toks.len() {
                            spec_parse_extensions_at(
                                toks,
                                pair.1,
                                ExtParts {
                                    unicode: acc.unicode,
                                    transform: acc.transform,
                                    private: pair.0,
                                },
                            )
                        } else {
                            Err(ParserError::InvalidExtension)
                        }
                    },
                },
                Ok(ExtensionType::Other(_)) => Err(ParserError::InvalidExtension),
            }
        }
    }
}

/// The extension sections of a locale.
#[derive(Debug, Clone)]
pub struct ExtensionsMap {
    pub unicode: UnicodeExtensionList,
    pub transform: TransformExtensionList,
    pub private: PrivateExtensionList,
}

impl ExtensionsMap {
    pub open spec fn parts(&self) -> ExtParts {
        ExtParts {
            unicode: self.unicode.parts(),
            transform: self.transform.parts(),
            private: self.private.parts(),
        }
    }

    pub open spec fn wf(&self) -> bool {
        wf_extensions(self.parts())
    }

    /// Whether every section is empty.
    pub fn is_empty(&self) -> (r: bool)
        ensures
            r == (self.unicode.keywords@.len() == 0 && self.unicode.attributes@.len() == 0
                && self.transform.tlang is None && self.transform.tfields@.len() == 0
                && self.private.tags@.len() == 0),
    {
        self.unicode.is_empty() && self.transform.is_empty() && self.private.is_empty()
    }

    /// Parses extension sections from token `start` to the end of input.
    pub fn try_from_tokens(toks: &Vec<Vec<u8>>, start: usize) -> (r: Result<Self, ParserError>)
        requires
            start <= toks@.len(),
        ensures
            ({
                let sp = spec_parse_extensions_at(token_views(toks@), start as int, empty_ext_parts());
                match r {
                    Ok(e) => sp matches Ok(spair) && spair.0 == e.parts() && e.wf(),
                    Err(err) => sp matches Err(serr) && serr == err,
                }
            }),
    {
        let ghost tv = token_views(toks@);
        let ghost target = spec_parse_extensions_at(tv, start as int, empty_ext_parts());
        let mut unicode = UnicodeExtensionList::default();
        let mut transform = TransformExtensionList::default();
        let mut private = PrivateExtensionList::default();
        let mut i: usize = start;
        proof {
            assert(kvs_views(Seq::<(u32, Vec<u64>)>::empty()) =~= Seq::<(u32, Seq<u64>)>::empty());
            assert(unicode.parts() =~= empty_ext_parts().unicode);
            assert(transform.parts() =~= empty_ext_parts().transform);
            assert(private.parts() =~= empty_ext_parts().private);
            assert(ExtParts {
                unicode: unicode.parts(),
                transform: transform.parts(),
                private: private.parts(),
            } =~= empty_ext_parts());
        }
        loop
            invariant
                start <= i <= toks@.len(),
                tv == token_views(toks@),
                target == spec_parse_extensions_at(tv, start as int, empty_ext_parts()),
                target == spec_parse_extensions_at(
                    tv,
                    i as int,
                    ExtParts {
                        unicode: unicode.parts(),
                        transform: transform.parts(),
                        private: private.parts(),
                    },
                ),
                unicode.wf(),
                transform.wf(),
                private.wf(),
            decreases toks@.len() - i,
        {
            if i >= toks.len() {
                let e = ExtensionsMap { unicode, transform, private };
                return Ok(e);
            }
            let t = &toks[i];
            proof {
                assert(tv[i as int] == t@);
            }
            if t.len() == 0 {
                let e = ExtensionsMap { unicode, transform, private };
                return Ok(e);
            }
            if t.len() != 1 {
                return Err(ParserError::InvalidExtension);
            }
            match ExtensionType::from_byte(t[0]) {
                Err(e) => {
                    return Err(e);
                },
                Ok(ExtensionType::Unicode) => {
                    match UnicodeExtensionList::try_from_tokens(toks, i + 1) {
                        Err(e) => {
                            return Err(e);
                        },
                        Ok(pair) => {
                            unicode = pair.0;
                            i = pair.1;
                        },
                    }
                },
                Ok(ExtensionType::Transform) => {
                    match TransformExtensionList::try_from_tokens(toks, i + 1) {
                        Err(e) => {
                            return Err(e);
                        },
                        Ok(pair) => {
                            transform = pair.0;
                            i = pair.1;
                        },
                    }
                },
                Ok(ExtensionType::Private) => {
                    match PrivateExtensionList::try_from_tokens(toks, i + 1) {
                        Err(e) => {
                            return Err(e);
                        },
                        Ok(pair) => {
                            private = pair.0;
                            i = pair.1;
                        },
                    }
                },
                Ok(ExtensionType::Other(_)) => {
                    return Err(ParserError::InvalidExtension);
                },
            }
        }
    }

    /// Parses extension sections out of raw text, starting at a singleton.
    pub fn from_bytes(bytes: &[u8]) -> (r: Result<Self, ParserError>)
        ensures
            ({
                let sp = spec_parse_extensions_at(
                    split_tokens_of(bytes@),
                    0,
                    empty_ext_parts(),
                );
                match r {
                    Ok(e) => sp matches Ok(spair) && spair.0 == e.parts() && e.wf(),
                    Err(err) => sp matches Err(serr) && serr == err,
                }
            }),
    {
        let v = vstd::slice::slice_to_vec(bytes);
        let toks = tokenize(&v);
        ExtensionsMap::try_from_tokens(&toks, 0)
    }
}

/// The token list of raw bytes; a named alias so contracts share one term.
pub open spec fn split_tokens_of(s: Seq<u8>) -> Seq<Seq<u8>> {
    crate::tokens::split_tokens(s)
}

// ---------------------------------------------------------------------------
// Serialization of all sections
// ---------------------------------------------------------------------------

/// Canonical extension text: transform, then unicode, then private.
pub open spec fn serialize_extensions(e: ExtParts) -> Seq<u8> {
    crate::extensions::transform::serialize_transform(e.transform)
        + crate::extensions::unicode::serialize_unicode(e.unicode)
        + crate::extensions::private::serialize_private(e.private)
}

impl ExtensionsMap {
    /// Appends the canonical extension text.
    pub fn write_bytes(&self, out: &mut Vec<u8>)
        ensures
            final(out)@ == old(out)@ + serialize_extensions(self.parts()),
    {
        let ghost base = out@;
        self.transform.write_bytes(out);
        self.unicode.write_bytes(out);
        self.private.write_bytes(out);
        proof {
            assert(out@ =~= base + serialize_extensions(self.parts()));
        }
    }
}

impl PartialEq for ExtensionsMap {
    fn eq(&self, other: &Self) -> (r: bool) {
        self.unicode == other.unicode && self.transform == other.transform && self.private
            == other.private
    }
}

impl vstd::std_specs::cmp::PartialEqSpecImpl for ExtensionsMap {
    open spec fn obeys_eq_spec() -> bool {
        true
    }

    open spec fn eq_spec(&self, other: &Self) -> bool {
        &&& self.unicode.attributes@ == other.unicode.attributes@
        &&& kvs_views(self.unicode.keywords@) == kvs_views(other.unicode.keywords@)
        &&& crate::extensions::transform::tlang_parts(&self.transform)
            == crate::extensions::transform::tlang_parts(&other.transform)
        &&& kvs_views(self.transform.tfields@) == kvs_views(other.transform.tfields@)
        &&& self.private.tags@ == other.private.tags@
    }
}

impl Default for ExtensionsMap {
    /// Empty sections all around.
    fn default() -> (r: Self)
        ensures
            r.unicode.keywords@.len() == 0,
            r.unicode.attributes@.len() == 0,
            r.transform.tlang is None,
            r.transform.tfields@.len() == 0,
            r.private.tags@.len() == 0,
            r.wf(),
    {
        ExtensionsMap {
            unicode: UnicodeExtensionList::default(),
            transform: TransformExtensionList::default(),
            private: PrivateExtensionList::default(),
        }
    }
}

} // verus!
