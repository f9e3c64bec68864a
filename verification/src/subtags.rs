//! Per-kind subtag grammar: language, script, region and variant tokens.
//!
//! Each parser validates length and character class, lower-cases the token
//! and packs it with the codec.  Canonical storage is always lower case;
//! display casing (title-case scripts, upper-case regions) is applied only
//! at serialization time.

use vstd::prelude::*;
use vstd::string::StringSliceAdditionalSpecFns;
use crate::codec::{
    is_ascii_alpha, is_ascii_digit, is_ascii_alphanumeric, lower_seq, pack8, pack4, wf_enc8,
    wf_enc4, unpack8, unpack4, lemma_pack8_wf, lemma_pack4_wf, bytes_to_lower, byte_is_alpha,
    byte_is_digit, byte_is_alphanumeric, pack8_bytes, pack4_bytes,
};
use crate::errors::ParserError;

verus! {

// ---------------------------------------------------------------------------
// Token grammar
// ---------------------------------------------------------------------------

/// Two to eight ASCII letters, but never exactly four (four-letter
/// alphabetic tokens are reserved for scripts).
pub open spec fn is_language_token(t: Seq<u8>) -> bool {
    &&& 2 <= t.len() <= 8
    &&& t.len() != 4
    &&& forall|i: int| 0 <= i < t.len() ==> is_ascii_alpha(#[trigger] t[i])
}

/// Exactly four ASCII letters.
pub open spec fn is_script_token(t: Seq<u8>) -> bool {
    t.len() == 4 && (forall|i: int| 0 <= i < t.len() ==> is_ascii_alpha(#[trigger] t[i]))
}

/// Exactly two ASCII letters, or exactly three ASCII digits.
pub open spec fn is_region_token(t: Seq<u8>) -> bool {
    ||| (t.len() == 2 && (forall|i: int| 0 <= i < t.len() ==> is_ascii_alpha(#[trigger] t[i])))
    ||| (t.len() == 3 && (forall|i: int| 0 <= i < t.len() ==> is_ascii_digit(#[trigger] t[i])))
}

/// Four to eight ASCII alphanumerics; a four-character variant must begin
/// with a digit, which is what tells it apart from a script token.
pub open spec fn is_variant_token(t: Seq<u8>) -> bool {
    &&& 4 <= t.len() <= 8
    &&& (forall|i: int| 0 <= i < t.len() ==> is_ascii_alphanumeric(#[trigger] t[i]))
    &&& (t.len() == 4 ==> is_ascii_digit(t[0]))
}

/// The reserved token that stands for "no language".
pub open spec fn und_bytes() -> Seq<u8> {
    seq![117u8, 110u8, 100u8]
}

// ---------------------------------------------------------------------------
// Parse results, as spec functions
// ---------------------------------------------------------------------------

pub open spec fn spec_parse_language(t: Seq<u8>) -> Result<Option<u64>, ParserError> {
    if !is_language_token(t) {
        Err(ParserError::InvalidLanguage)
    } else if lower_seq(t) == und_bytes() {
        Ok(None)
    } else {
        Ok(Some(pack8(lower_seq(t))))
    }
}

pub open spec fn spec_parse_script(t: Seq<u8>) -> Result<u32, ParserError> {
    if !is_script_token(t) {
        Err(ParserError::InvalidSubtag)
    } else {
        Ok(pack4(lower_seq(t)))
    }
}

pub open spec fn spec_parse_region(t: Seq<u8>) -> Result<u32, ParserError> {
    if !is_region_token(t) {
        Err(ParserError::InvalidSubtag)
    } else {
        Ok(pack4(lower_seq(t)))
    }
}

pub open spec fn spec_parse_variant(t: Seq<u8>) -> Result<u64, ParserError> {
    if !is_variant_token(t) {
        Err(ParserError::InvalidSubtag)
    } else {
        Ok(pack8(lower_seq(t)))
    }
}

// ---------------------------------------------------------------------------
// Well-formed stored encodings
// ---------------------------------------------------------------------------

pub open spec fn is_lower_alpha(b: u8) -> bool {
    97 <= b && b <= 122
}

pub open spec fn is_lower_alnum(b: u8) -> bool {
    is_lower_alpha(b) || is_ascii_digit(b)
}

/// A stored language encoding: two to eight (never four) lower-case
/// letters, and never the reserved `und` token.
pub open spec fn wf_language(v: u64) -> bool {
    &&& wf_enc8(v, 2, 8)
    &&& unpack8(v).len() != 4
    &&& forall|i: int| 0 <= i < unpack8(v).len() ==> is_lower_alpha(#[trigger] unpack8(v)[i])
    &&& unpack8(v) != und_bytes()
}

/// A stored script encoding: four lower-case letters.
pub open spec fn wf_script(v: u32) -> bool {
    &&& wf_enc4(v, 4, 4)
    &&& forall|i: int| 0 <= i < unpack4(v).len() ==> is_lower_alpha(#[trigger] unpack4(v)[i])
}

/// A stored region encoding: two lower-case letters or three digits.
pub open spec fn wf_region(v: u32) -> bool {
    &&& wf_enc4(v, 2, 3)
    &&& (unpack4(v).len() == 2 ==> forall|i: int|
        0 <= i < unpack4(v).len() ==> is_lower_alpha(#[trigger] unpack4(v)[i]))
    &&& (unpack4(v).len() == 3 ==> forall|i: int|
        0 <= i < unpack4(v).len() ==> is_ascii_digit(#[trigger] unpack4(v)[i]))
}

/// A stored variant encoding: four to eight lower-case alphanumerics,
/// digit-led when exactly four.
pub open spec fn wf_variant(v: u64) -> bool {
    &&& wf_enc8(v, 4, 8)
    &&& forall|i: int| 0 <= i < unpack8(v).len() ==> is_lower_alnum(#[trigger] unpack8(v)[i])
    &&& (unpack8(v).len() == 4 ==> is_ascii_digit(unpack8(v)[0]))
}

pub proof fn lemma_parse_language_wf(t: Seq<u8>)
    requires
        is_language_token(t),
        lower_seq(t) != und_bytes(),
    ensures
        wf_language(pack8(lower_seq(t))),
{
    let low = lower_seq(t);
    assert(forall|i: int| 0 <= i < low.len() ==> is_lower_alpha(#[trigger] low[i]));
    lemma_pack8_wf(low, 2, 8);
}

pub proof fn lemma_parse_script_wf(t: Seq<u8>)
    requires
        is_script_token(t),
    ensures
        wf_script(pack4(lower_seq(t))),
{
    let low = lower_seq(t);
    assert(forall|i: int| 0 <= i < low.len() ==> is_lower_alpha(#[trigger] low[i]));
    lemma_pack4_wf(low, 4, 4);
}

pub proof fn lemma_parse_region_wf(t: Seq<u8>)
    requires
        is_region_token(t),
    ensures
        wf_region(pack4(lower_seq(t))),
{
    let low = lower_seq(t);
    if t.len() == 2 {
        assert(forall|i: int| 0 <= i < low.len() ==> is_lower_alpha(#[trigger] low[i]));
    } else {
        assert(forall|i: int| 0 <= i < low.len() ==> is_ascii_digit(#[trigger] low[i]));
    }
    lemma_pack4_wf(low, 2, 3);
}

pub proof fn lemma_parse_variant_wf(t: Seq<u8>)
    requires
        is_variant_token(t),
    ensures
        wf_variant(pack8(lower_seq(t))),
{
    let low = lower_seq(t);
    assert(forall|i: int| 0 <= i < low.len() ==> is_lower_alnum(#[trigger] low[i]));
    lemma_pack8_wf(low, 4, 8);
}

// ---------------------------------------------------------------------------
// Executable token checks
// ---------------------------------------------------------------------------

pub fn all_alpha(t: &Vec<u8>) -> (r: bool)
    ensures
        r == forall|i: int| 0 <= i < t@.len() ==> is_ascii_alpha(#[trigger] t@[i]),
{
    let mut i: usize = 0;
    while i < t.len()
        invariant
            i <= t@.len(),
            forall|j: int| 0 <= j < i ==> is_ascii_alpha(#[trigger] t@[j]),
        decreases t@.len() - i,
    {
        if !byte_is_alpha(t[i]) {
            return false;
        }
        i = i + 1;
    }
    true
}

pub fn all_digit(t: &Vec<u8>) -> (r: bool)
    ensures
        r == forall|i: int| 0 <= i < t@.len() ==> is_ascii_digit(#[trigger] t@[i]),
{
    let mut i: usize = 0;
    while i < t.len()
        invariant
            i <= t@.len(),
            forall|j: int| 0 <= j < i ==> is_ascii_digit(#[trigger] t@[j]),
        decreases t@.len() - i,
    {
        if !byte_is_digit(t[i]) {
            return false;
        }
        i = i + 1;
    }
    true
}

pub fn all_alphanumeric(t: &Vec<u8>) -> (r: bool)
    ensures
        r == forall|i: int| 0 <= i < t@.len() ==> is_ascii_alphanumeric(#[trigger] t@[i]),
{
    let mut i: usize = 0;
    while i < t.len()
        invariant
            i <= t@.len(),
            forall|j: int| 0 <= j < i ==> is_ascii_alphanumeric(#[trigger] t@[j]),
        decreases t@.len() - i,
    {
        if !byte_is_alphanumeric(t[i]) {
            return false;
        }
        i = i + 1;
    }
    true
}

pub fn is_language_token_bytes(t: &Vec<u8>) -> (r: bool)
    ensures
        r == is_language_token(t@),
{
    let n = t.len();
    2 <= n && n <= 8 && n != 4 && all_alpha(t)
}

pub fn is_script_token_bytes(t: &Vec<u8>) -> (r: bool)
    ensures
        r == is_script_token(t@),
{
    t.len() == 4 && all_alpha(t)
}

pub fn is_region_token_bytes(t: &Vec<u8>) -> (r: bool)
    ensures
        r == is_region_token(t@),
{
    (t.len() == 2 && all_alpha(t)) || (t.len() == 3 && all_digit(t))
}

pub fn is_variant_token_bytes(t: &Vec<u8>) -> (r: bool)
    ensures
        r == is_variant_token(t@),
{
    let n = t.len();
    4 <= n && n <= 8 && all_alphanumeric(t) && (n != 4 || byte_is_digit(t[0]))
}

// ---------------------------------------------------------------------------
// Executable subtag parsers, byte level
// ---------------------------------------------------------------------------

pub fn parse_language_subtag_bytes(t: &Vec<u8>) -> (r: Result<Option<u64>, ParserError>)
    ensures
        r == spec_parse_language(t@),
{
    if !is_language_token_bytes(t) {
        return Err(ParserError::InvalidLanguage);
    }
    let low = bytes_to_lower(t);
    if low.len() == 3 && low[0] == 117 && low[1] == 110 && low[2] == 100 {
        proof {
            assert(lower_seq(t@) =~= und_bytes());
        }
        Ok(None)
    } else {
        proof {
            if lower_seq(t@) == und_bytes() {
                assert(low@[0] == 117 && low@[1] == 110 && low@[2] == 100);
            }
        }
        Ok(Some(pack8_bytes(&low)))
    }
}

pub fn parse_script_subtag_bytes(t: &Vec<u8>) -> (r: Result<u32, ParserError>)
    ensures
        r == spec_parse_script(t@),
{
    if !is_script_token_bytes(t) {
        return Err(ParserError::InvalidSubtag);
    }
    let low = bytes_to_lower(t);
    Ok(pack4_bytes(&low))
}

pub fn parse_region_subtag_bytes(t: &Vec<u8>) -> (r: Result<u32, ParserError>)
    ensures
        r == spec_parse_region(t@),
{
    if !is_region_token_bytes(t) {
        return Err(ParserError::InvalidSubtag);
    }
    let low = bytes_to_lower(t);
    Ok(pack4_bytes(&low))
}

pub fn parse_variant_subtag_bytes(t: &Vec<u8>) -> (r: Result<u64, ParserError>)
    ensures
        r == spec_parse_variant(t@),
{
    if !is_variant_token_bytes(t) {
        return Err(ParserError::InvalidSubtag);
    }
    let low = bytes_to_lower(t);
    Ok(pack8_bytes(&low))
}

// ---------------------------------------------------------------------------
// Public string-level subtag parsers
// ---------------------------------------------------------------------------

pub fn parse_language_subtag(s: &str) -> (r: Result<Option<u64>, ParserError>)
    ensures
        r == spec_parse_language(s.spec_bytes()),
{
    let v = s.as_bytes_vec();
    parse_language_subtag_bytes(&v)
}

pub fn parse_script_subtag(s: &str) -> (r: Result<u32, ParserError>)
    ensures
        r == spec_parse_script(s.spec_bytes()),
{
    let v = s.as_bytes_vec();
    parse_script_subtag_bytes(&v)
}

pub fn parse_region_subtag(s: &str) -> (r: Result<u32, ParserError>)
    ensures
        r == spec_parse_region(s.spec_bytes()),
{
    let v = s.as_bytes_vec();
    parse_region_subtag_bytes(&v)
}

pub fn parse_variant_subtag(s: &str) -> (r: Result<u64, ParserError>)
    ensures
        r == spec_parse_variant(s.spec_bytes()),
{
    let v = s.as_bytes_vec();
    parse_variant_subtag_bytes(&v)
}

} // verus!
