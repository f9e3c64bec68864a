//! Fixed-width packed encoding of short ASCII subtags.
//!
//! A subtag of one to eight bytes is packed big-endian into a `u64`
//! (the eight-byte class, used for language and variant subtags); one of
//! one to four bytes is packed into a `u32` (the four-byte class, used for
//! script and region subtags).  Unused low bytes are zero, so a value
//! decodes back to exactly the bytes that were packed, two encodings are
//! equal exactly when the packed strings are equal, and the numeric order
//! of encodings agrees with lexicographic byte order of the strings.

use vstd::prelude::*;
use vstd::arithmetic::div_mod::lemma_fundamental_div_mod_converse;

verus! {

// ---------------------------------------------------------------------------
// Byte classes and case folding
// ---------------------------------------------------------------------------

/// The two interchangeable input separators, `-` and `_`.
pub open spec fn is_sep(b: u8) -> bool {
    b == 45 || b == 95
}

pub open spec fn is_ascii_alpha(b: u8) -> bool {
    (65 <= b && b <= 90) || (97 <= b && b <= 122)
}

pub open spec fn is_ascii_digit(b: u8) -> bool {
    48 <= b && b <= 57
}

pub open spec fn is_ascii_alphanumeric(b: u8) -> bool {
    is_ascii_alpha(b) || is_ascii_digit(b)
}

/// ASCII lower-casing of one byte: letters `A`..`Z` gain 32, all else unchanged.
pub open spec fn lower_byte(b: u8) -> u8 {
    if 65 <= b && b <= 90 {
        (b + 32) as u8
    } else {
        b
    }
}

/// ASCII upper-casing of one byte: letters `a`..`z` lose 32, all else unchanged.
pub open spec fn upper_byte(b: u8) -> u8 {
    if 97 <= b && b <= 122 {
        (b - 32) as u8
    } else {
        b
    }
}

pub open spec fn lower_seq(s: Seq<u8>) -> Seq<u8> {
    s.map_values(|b: u8| lower_byte(b))
}

pub open spec fn upper_seq(s: Seq<u8>) -> Seq<u8> {
    s.map_values(|b: u8| upper_byte(b))
}

/// Title case: first byte upper-cased, the rest unchanged.
pub open spec fn title_seq(s: Seq<u8>) -> Seq<u8> {
    Seq::new(s.len(), |i: int| if i == 0 { upper_byte(s[i]) } else { s[i] })
}

pub fn byte_is_alpha(b: u8) -> (r: bool)
    ensures
        r == is_ascii_alpha(b),
{
    (65 <= b && b <= 90) || (97 <= b && b <= 122)
}

pub fn byte_is_digit(b: u8) -> (r: bool)
    ensures
        r == is_ascii_digit(b),
{
    48 <= b && b <= 57
}

pub fn byte_is_alphanumeric(b: u8) -> (r: bool)
    ensures
        r == is_ascii_alphanumeric(b),
{
    byte_is_alpha(b) || byte_is_digit(b)
}

pub fn byte_to_lower(b: u8) -> (r: u8)
    ensures
        r == lower_byte(b),
{
    if 65 <= b && b <= 90 {
        b + 32
    } else {
        b
    }
}

pub fn byte_to_upper(b: u8) -> (r: u8)
    ensures
        r == upper_byte(b),
{
    if 97 <= b && b <= 122 {
        b - 32
    } else {
        b
    }
}

/// Lower-cases every byte of a sequence.
pub fn bytes_to_lower(s: &Vec<u8>) -> (r: Vec<u8>)
    ensures
        r@ == lower_seq(s@),
{
    let mut r: Vec<u8> = Vec::new();
    let mut i: usize = 0;
    while i < s.len()
        invariant
            i <= s@.len(),
            r@ =~= lower_seq(s@).take(i as int),
        decreases s@.len() - i,
    {
        r.push(byte_to_lower(s[i]));
        i = i + 1;
    }
    assert(r@ =~= lower_seq(s@));
    r
}

// ---------------------------------------------------------------------------
// Well-formed subtag byte strings
// ---------------------------------------------------------------------------

/// `min` to `max` bytes, all ASCII alphanumeric.
pub open spec fn wf_bytes(s: Seq<u8>, min: int, max: int) -> bool {
    min <= s.len() <= max && (forall|i: int| 0 <= i < s.len() ==> is_ascii_alphanumeric(s[i]))
}

// ---------------------------------------------------------------------------
// The eight-byte class (u64)
// ---------------------------------------------------------------------------

/// The byte at position `i`, zero past the end: the padding byte.
pub open spec fn byte_at(s: Seq<u8>, i: int) -> u8 {
    if 0 <= i && i < s.len() {
        s[i]
    } else {
        0
    }
}

/// Place value of position `i` of eight: 256^(7-i).
pub open spec fn place8(i: int) -> int {
    if i <= 0 {
        0x100_0000_0000_0000
    } else if i == 1 {
        0x1_0000_0000_0000
    } else if i == 2 {
        0x100_0000_0000
    } else if i == 3 {
        0x1_0000_0000
    } else if i == 4 {
        0x100_0000
    } else if i == 5 {
        0x1_0000
    } else if i == 6 {
        0x100
    } else {
        1
    }
}

pub open spec fn pack8_int(s: Seq<u8>) -> int {
    byte_at(s, 0) * 0x100_0000_0000_0000 + byte_at(s, 1) * 0x1_0000_0000_0000 + byte_at(s, 2)
        * 0x100_0000_0000 + byte_at(s, 3) * 0x1_0000_0000 + byte_at(s, 4) * 0x100_0000 + byte_at(
        s,
        5,
    ) * 0x1_0000 + byte_at(s, 6) * 0x100 + byte_at(s, 7)
}

/// Big-endian packing of up to eight bytes, zero-padded on the right.
pub open spec fn pack8(s: Seq<u8>) -> u64 {
    pack8_int(s) as u64
}

pub proof fn lemma_pack8_int_bounds(s: Seq<u8>)
    ensures
        0 <= pack8_int(s) < 0x1_0000_0000_0000_0000,
        pack8(s) == pack8_int(s),
{
}

/// The byte at position `i` recovered from a packed value.
#[verifier::opaque]
pub open spec fn nth_byte8(v: u64, i: int) -> u8 {
    ((v as int / place8(i)) % 0x100) as u8
}

/// Number of bytes before the zero padding begins.
#[verifier::opaque]
pub open spec fn len8(v: u64) -> int {
    if nth_byte8(v, 0) == 0 {
        0
    } else if nth_byte8(v, 1) == 0 {
        1
    } else if nth_byte8(v, 2) == 0 {
        2
    } else if nth_byte8(v, 3) == 0 {
        3
    } else if nth_byte8(v, 4) == 0 {
        4
    } else if nth_byte8(v, 5) == 0 {
        5
    } else if nth_byte8(v, 6) == 0 {
        6
    } else if nth_byte8(v, 7) == 0 {
        7
    } else {
        8
    }
}

/// The packed bytes, padding stripped.
pub open spec fn unpack8(v: u64) -> Seq<u8> {
    Seq::new(len8(v) as nat, |i: int| nth_byte8(v, i))
}

/// Extracting byte `i` from `pack8(s)` gives back `byte_at(s, i)`.
pub proof fn lemma_nth_pack8(s: Seq<u8>, i: int)
    requires
        s.len() <= 8,
        0 <= i < 8,
    ensures
        nth_byte8(pack8(s), i) == byte_at(s, i),
{
    reveal(nth_byte8);
    lemma_pack8_int_bounds(s);
    let x = pack8_int(s);
    let b0 = byte_at(s, 0) as int;
    let b1 = byte_at(s, 1) as int;
    let b2 = byte_at(s, 2) as int;
    let b3 = byte_at(s, 3) as int;
    let b4 = byte_at(s, 4) as int;
    let b5 = byte_at(s, 5) as int;
    let b6 = byte_at(s, 6) as int;
    let b7 = byte_at(s, 7) as int;
    if i == 0 {
        let q = b0;
        let r = x - q * place8(0);
        lemma_fundamental_div_mod_converse(x, place8(0), q, r);
        lemma_fundamental_div_mod_converse(q, 0x100, 0, b0);
    } else if i == 1 {
        let q = b0 * 0x100 + b1;
        let r = x - q * place8(1);
        lemma_fundamental_div_mod_converse(x, place8(1), q, r);
        lemma_fundamental_div_mod_converse(q, 0x100, b0, b1);
    } else if i == 2 {
        let q = b0 * 0x1_0000 + b1 * 0x100 + b2;
        let r = x - q * place8(2);
        lemma_fundamental_div_mod_converse(x, place8(2), q, r);
        lemma_fundamental_div_mod_converse(q, 0x100, b0 * 0x100 + b1, b2);
    } else if i == 3 {
        let q = b0 * 0x100_0000 + b1 * 0x1_0000 + b2 * 0x100 + b3;
        let r = x - q * place8(3);
        lemma_fundamental_div_mod_converse(x, place8(3), q, r);
        lemma_fundamental_div_mod_converse(q, 0x100, b0 * 0x1_0000 + b1 * 0x100 + b2, b3);
    } else if i == 4 {
        let q = b0 * 0x1_0000_0000 + b1 * 0x100_0000 + b2 * 0x1_0000 + b3 * 0x100 + b4;
        let r = x - q * place8(4);
        lemma_fundamental_div_mod_converse(x, place8(4), q, r);
        lemma_fundamental_div_mod_converse(
            q,
            0x100,
            b0 * 0x100_0000 + b1 * 0x1_0000 + b2 * 0x100 + b3,
            b4,
        );
    } else if i == 5 {
        let q = b0 * 0x100_0000_0000 + b1 * 0x1_0000_0000 + b2 * 0x100_0000 + b3 * 0x1_0000 + b4
            * 0x100 + b5;
        let r = x - q * place8(5);
        lemma_fundamental_div_mod_converse(x, place8(5), q, r);
        lemma_fundamental_div_mod_converse(
            q,
            0x100,
            b0 * 0x1_0000_0000 + b1 * 0x100_0000 + b2 * 0x1_0000 + b3 * 0x100 + b4,
            b5,
        );
    } else if i == 6 {
        let q = b0 * 0x1_0000_0000_0000 + b1 * 0x100_0000_0000 + b2 * 0x1_0000_0000 + b3
            * 0x100_0000 + b4 * 0x1_0000 + b5 * 0x100 + b6;
        let r = x - q * place8(6);
        lemma_fundamental_div_mod_converse(x, place8(6), q, r);
        lemma_fundamental_div_mod_converse(
            q,
            0x100,
            b0 * 0x100_0000_0000 + b1 * 0x1_0000_0000 + b2 * 0x100_0000 + b3 * 0x1_0000 + b4
                * 0x100 + b5,
            b6,
        );
    } else {
        let q = x;
        lemma_fundamental_div_mod_converse(x, place8(7), q, 0);
        lemma_fundamental_div_mod_converse(
            q,
            0x100,
            b0 * 0x1_0000_0000_0000 + b1 * 0x100_0000_0000 + b2 * 0x1_0000_0000 + b3 * 0x100_0000
                + b4 * 0x1_0000 + b5 * 0x100 + b6,
            b7,
        );
    }
}

/// Packing bytes without interior zeros and unpacking gives the bytes back.
pub proof fn lemma_unpack_pack8(s: Seq<u8>)
    requires
        s.len() <= 8,
        forall|i: int| 0 <= i < s.len() ==> s[i] != 0,
    ensures
        unpack8(pack8(s)) == s,
{
    reveal(len8);
    let v = pack8(s);
    assert forall|i: int| 0 <= i < 8 implies nth_byte8(v, i) == byte_at(s, i) by {
        lemma_nth_pack8(s, i);
    }
    assert(len8(v) == s.len());
    assert(unpack8(v) =~= s);
}

/// A packed well-formed subtag unpacks to it, so the encoding loses nothing.
pub proof fn lemma_wf_unpack_pack8(s: Seq<u8>)
    requires
        wf_bytes(s, 1, 8),
    ensures
        unpack8(pack8(s)) == s,
{
    assert(forall|i: int| 0 <= i < s.len() ==> s[i] != 0);
    lemma_unpack_pack8(s);
}

/// A `u64` that is the packing of some well-formed subtag string.
pub open spec fn wf_enc8(v: u64, min: int, max: int) -> bool {
    wf_bytes(unpack8(v), min, max) && pack8(unpack8(v)) == v
}

pub proof fn lemma_pack8_wf(s: Seq<u8>, min: int, max: int)
    requires
        wf_bytes(s, min, max),
        1 <= min,
        max <= 8,
    ensures
        wf_enc8(pack8(s), min, max),
        unpack8(pack8(s)) == s,
{
    lemma_wf_unpack_pack8(s);
}

/// Packs up to eight bytes of a vector, zero-padded.
pub fn pack8_bytes(s: &Vec<u8>) -> (r: u64)
    requires
        s@.len() <= 8,
    ensures
        r == pack8(s@),
{
    let n = s.len();
    let b0: u64 = if n > 0 { s[0] as u64 } else { 0 };
    let b1: u64 = if n > 1 { s[1] as u64 } else { 0 };
    let b2: u64 = if n > 2 { s[2] as u64 } else { 0 };
    let b3: u64 = if n > 3 { s[3] as u64 } else { 0 };
    let b4: u64 = if n > 4 { s[4] as u64 } else { 0 };
    let b5: u64 = if n > 5 { s[5] as u64 } else { 0 };
    let b6: u64 = if n > 6 { s[6] as u64 } else { 0 };
    let b7: u64 = if n > 7 { s[7] as u64 } else { 0 };
    proof {
        lemma_pack8_int_bounds(s@);
    }
    b0 * 0x100_0000_0000_0000 + b1 * 0x1_0000_0000_0000 + b2 * 0x100_0000_0000 + b3 * 0x1_0000_0000
        + b4 * 0x100_0000 + b5 * 0x1_0000 + b6 * 0x100 + b7
}

/// Unpacks a value of the eight-byte class back into its bytes.
pub fn unpack8_bytes(v: u64) -> (out: Vec<u8>)
    ensures
        out@ == unpack8(v),
{
    proof {
        reveal(nth_byte8);
        reveal(len8);
    }
    let b0: u8 = ((v / 0x100_0000_0000_0000) % 0x100) as u8;
    let b1: u8 = ((v / 0x1_0000_0000_0000) % 0x100) as u8;
    let b2: u8 = ((v / 0x100_0000_0000) % 0x100) as u8;
    let b3: u8 = ((v / 0x1_0000_0000) % 0x100) as u8;
    let b4: u8 = ((v / 0x100_0000) % 0x100) as u8;
    let b5: u8 = ((v / 0x1_0000) % 0x100) as u8;
    let b6: u8 = ((v / 0x100) % 0x100) as u8;
    let b7: u8 = (v % 0x100) as u8;
    let mut out: Vec<u8> = Vec::new();
    if b0 != 0 {
        out.push(b0);
        if b1 != 0 {
            out.push(b1);
            if b2 != 0 {
                out.push(b2);
                if b3 != 0 {
                    out.push(b3);
                    if b4 != 0 {
                        out.push(b4);
                        if b5 != 0 {
                            out.push(b5);
                            if b6 != 0 {
                                out.push(b6);
                                if b7 != 0 {
                                    out.push(b7);
                                }
                            }
                        }
                    }
                }
            }
        }
    }
    assert(out@ =~= unpack8(v));
    out
}

// ---------------------------------------------------------------------------
// The four-byte class (u32)
// ---------------------------------------------------------------------------

/// Place value of position `i` of four: 256^(3-i).
pub open spec fn place4(i: int) -> int {
    if i <= 0 {
        0x100_0000
    } else if i == 1 {
        0x1_0000
    } else if i == 2 {
        0x100
    } else {
        1
    }
}

pub open spec fn pack4_int(s: Seq<u8>) -> int {
    byte_at(s, 0) * 0x100_0000 + byte_at(s, 1) * 0x1_0000 + byte_at(s, 2) * 0x100 + byte_at(s, 3)
}

/// Big-endian packing of up to four bytes, zero-padded on the right.
pub open spec fn pack4(s: Seq<u8>) -> u32 {
    pack4_int(s) as u32
}

pub proof fn lemma_pack4_int_bounds(s: Seq<u8>)
    ensures
        0 <= pack4_int(s) < 0x1_0000_0000,
        pack4(s) == pack4_int(s),
{
}

#[verifier::opaque]
pub open spec fn nth_byte4(v: u32, i: int) -> u8 {
    ((v as int / place4(i)) % 0x100) as u8
}

#[verifier::opaque]
pub open spec fn len4(v: u32) -> int {
    if nth_byte4(v, 0) == 0 {
        0
    } else if nth_byte4(v, 1) == 0 {
        1
    } else if nth_byte4(v, 2) == 0 {
        2
    } else if nth_byte4(v, 3) == 0 {
        3
    } else {
        4
    }
}

pub open spec fn unpack4(v: u32) -> Seq<u8> {
    Seq::new(len4(v) as nat, |i: int| nth_byte4(v, i))
}

pub proof fn lemma_nth_pack4(s: Seq<u8>, i: int)
    requires
        s.len() <= 4,
        0 <= i < 4,
    ensures
        nth_byte4(pack4(s), i) == byte_at(s, i),
{
    reveal(nth_byte4);
    lemma_pack4_int_bounds(s);
    let x = pack4_int(s);
    let b0 = byte_at(s, 0) as int;
    let b1 = byte_at(s, 1) as int;
    let b2 = byte_at(s, 2) as int;
    let b3 = byte_at(s, 3) as int;
    if i == 0 {
        let r = x - b0 * place4(0);
        lemma_fundamental_div_mod_converse(x, place4(0), b0, r);
        lemma_fundamental_div_mod_converse(b0, 0x100, 0, b0);
    } else if i == 1 {
        let q = b0 * 0x100 + b1;
        let r = x - q * place4(1);
        lemma_fundamental_div_mod_converse(x, place4(1), q, r);
        lemma_fundamental_div_mod_converse(q, 0x100, b0, b1);
    } else if i == 2 {
        let q = b0 * 0x1_0000 + b1 * 0x100 + b2;
        let r = x - q * place4(2);
        lemma_fundamental_div_mod_converse(x, place4(2), q, r);
        lemma_fundamental_div_mod_converse(q, 0x100, b0 * 0x100 + b1, b2);
    } else {
        lemma_fundamental_div_mod_converse(x, place4(3), x, 0);
        lemma_fundamental_div_mod_converse(x, 0x100, b0 * 0x1_0000 + b1 * 0x100 + b2, b3);
    }
}

pub proof fn lemma_unpack_pack4(s: Seq<u8>)
    requires
        s.len() <= 4,
        forall|i: int| 0 <= i < s.len() ==> s[i] != 0,
    ensures
        unpack4(pack4(s)) == s,
{
    reveal(len4);
    let v = pack4(s);
    assert forall|i: int| 0 <= i < 4 implies nth_byte4(v, i) == byte_at(s, i) by {
        lemma_nth_pack4(s, i);
    }
    assert(len4(v) == s.len());
    assert(unpack4(v) =~= s);
}

/// A `u32` that is the packing of some well-formed subtag string.
pub open spec fn wf_enc4(v: u32, min: int, max: int) -> bool {
    wf_bytes(unpack4(v), min, max) && pack4(unpack4(v)) == v
}

pub proof fn lemma_pack4_wf(s: Seq<u8>, min: int, max: int)
    requires
        wf_bytes(s, min, max),
        1 <= min,
        max <= 4,
    ensures
        wf_enc4(pack4(s), min, max),
        unpack4(pack4(s)) == s,
{
    assert(forall|i: int| 0 <= i < s.len() ==> s[i] != 0);
    lemma_unpack_pack4(s);
}

/// Packs up to four bytes of a vector, zero-padded.
pub fn pack4_bytes(s: &Vec<u8>) -> (r: u32)
    requires
        s@.len() <= 4,
    ensures
        r == pack4(s@),
{
    let n = s.len();
    let b0: u32 = if n > 0 { s[0] as u32 } else { 0 };
    let b1: u32 = if n > 1 { s[1] as u32 } else { 0 };
    let b2: u32 = if n > 2 { s[2] as u32 } else { 0 };
    let b3: u32 = if n > 3 { s[3] as u32 } else { 0 };
    proof {
        lemma_pack4_int_bounds(s@);
    }
    b0 * 0x100_0000 + b1 * 0x1_0000 + b2 * 0x100 + b3
}

/// Unpacks a value of the four-byte class back into its bytes.
pub fn unpack4_bytes(v: u32) -> (out: Vec<u8>)
    ensures
        out@ == unpack4(v),
{
    proof {
        reveal(nth_byte4);
        reveal(len4);
    }
    let b0: u8 = ((v / 0x100_0000) % 0x100) as u8;
    let b1: u8 = ((v / 0x1_0000) % 0x100) as u8;
    let b2: u8 = ((v / 0x100) % 0x100) as u8;
    let b3: u8 = (v % 0x100) as u8;
    let mut out: Vec<u8> = Vec::new();
    if b0 != 0 {
        out.push(b0);
        if b1 != 0 {
            out.push(b1);
            if b2 != 0 {
                out.push(b2);
                if b3 != 0 {
                    out.push(b3);
                }
            }
        }
    }
    assert(out@ =~= unpack4(v));
    out
}

// ---------------------------------------------------------------------------
// ASCII bytes and text
// ---------------------------------------------------------------------------

pub open spec fn all_ascii(s: Seq<u8>) -> bool {
    forall|i: int| 0 <= i < s.len() ==> #[trigger] s[i] < 128
}

/// The characters spelled by a byte sequence, read as ASCII.
pub open spec fn chars_of(s: Seq<u8>) -> Seq<char> {
    s.map_values(|b: u8| b as char)
}

/// Relies on String::from_utf8: ASCII bytes are valid UTF-8 and decode to
/// exactly those characters, one per byte.
#[verifier::external_body]
pub fn string_from_ascii(bytes: Vec<u8>) -> (r: String)
    requires
        all_ascii(bytes@),
    ensures
        r@ == chars_of(bytes@),
{
    match String::from_utf8(bytes) {
        Ok(s) => s,
        Err(_) => String::new(),
    }
}

} // verus!

verus! {

// ---------------------------------------------------------------------------
// Encoding order agrees with byte order
// ---------------------------------------------------------------------------

/// Lexicographic order on byte strings: a proper prefix comes first.
pub open spec fn lex_less(a: Seq<u8>, b: Seq<u8>) -> bool
    decreases b.len(),
{
    if b.len() == 0 {
        false
    } else if a.len() == 0 {
        true
    } else if a[0] < b[0] {
        true
    } else if a[0] > b[0] {
        false
    } else {
        lex_less(a.drop_first(), b.drop_first())
    }
}

/// A first difference at position `d` decides the numeric order.
proof fn lemma_pack8_lt_at(a: Seq<u8>, b: Seq<u8>, d: int)
    requires
        a.len() <= 8,
        b.len() <= 8,
        0 <= d < 8,
        forall|i: int| 0 <= i < d ==> byte_at(a, i) == byte_at(b, i),
        byte_at(a, d) < byte_at(b, d),
    ensures
        pack8_int(a) < pack8_int(b),
{
    if d == 0 {
        assert(pack8_int(a) < pack8_int(b));
    } else if d == 1 {
        assert(byte_at(a, 0) == byte_at(b, 0));
        assert(pack8_int(a) < pack8_int(b));
    } else if d == 2 {
        assert(pack8_int(a) < pack8_int(b));
    } else if d == 3 {
        assert(pack8_int(a) < pack8_int(b));
    } else if d == 4 {
        assert(pack8_int(a) < pack8_int(b));
    } else if d == 5 {
        assert(pack8_int(a) < pack8_int(b));
    } else if d == 6 {
        assert(pack8_int(a) < pack8_int(b));
    } else {
        assert(pack8_int(a) < pack8_int(b));
    }
}

/// Lexicographically ordered strings without interior zeros differ at
/// some position within the packed width.
proof fn lemma_lex_less_diff(a: Seq<u8>, b: Seq<u8>)
    requires
        a.len() <= 8,
        b.len() <= 8,
        forall|i: int| 0 <= i < a.len() ==> a[i] != 0,
        forall|i: int| 0 <= i < b.len() ==> b[i] != 0,
        lex_less(a, b),
    ensures
        exists|d: int|
            0 <= d < 8 && (forall|i: int| 0 <= i < d ==> byte_at(a, i) == byte_at(b, i))
                && byte_at(a, d) < byte_at(b, d),
    decreases b.len(),
{
    if a.len() == 0 {
        assert(byte_at(a, 0) == 0 && byte_at(b, 0) == b[0] && b[0] != 0);
        assert((forall|i: int| 0 <= i < 0 ==> byte_at(a, i) == byte_at(b, i)) && byte_at(a, 0)
            < byte_at(b, 0));
    } else if a[0] < b[0] {
        assert((forall|i: int| 0 <= i < 0 ==> byte_at(a, i) == byte_at(b, i)) && byte_at(a, 0)
            < byte_at(b, 0));
    } else {
        let ta = a.drop_first();
        let tb = b.drop_first();
        assert(forall|i: int| 0 <= i < ta.len() ==> #[trigger] ta[i] == a[i + 1]);
        assert(forall|i: int| 0 <= i < tb.len() ==> #[trigger] tb[i] == b[i + 1]);
        lemma_lex_less_diff(ta, tb);
        let dt = choose|dt: int|
            0 <= dt < 8 && (forall|i: int| 0 <= i < dt ==> byte_at(ta, i) == byte_at(tb, i))
                && byte_at(ta, dt) < byte_at(tb, dt);
        assert(dt < 7) by {
            if dt == 7 {
                assert(byte_at(ta, 7) == 0 && byte_at(tb, 7) == 0);
            }
        }
        let d = dt + 1;
        assert forall|i: int| 0 <= i < d implies byte_at(a, i) == byte_at(b, i) by {
            if i == 0 {
            } else {
                assert(byte_at(ta, i - 1) == byte_at(tb, i - 1));
                assert(byte_at(a, i) == byte_at(ta, i - 1));
                assert(byte_at(b, i) == byte_at(tb, i - 1));
            }
        }
        assert(byte_at(a, d) == byte_at(ta, dt));
        assert(byte_at(b, d) == byte_at(tb, dt));
    }
}

/// The numeric order of the eight-byte class agrees with lexicographic
/// byte order: for well-formed subtag strings, the packing is monotone,
/// so sorting encodings sorts the subtags in code-point order.
pub proof fn lemma_pack8_order(a: Seq<u8>, b: Seq<u8>)
    requires
        a.len() <= 8,
        b.len() <= 8,
        forall|i: int| 0 <= i < a.len() ==> a[i] != 0,
        forall|i: int| 0 <= i < b.len() ==> b[i] != 0,
        lex_less(a, b),
    ensures
        pack8(a) < pack8(b),
{
    lemma_lex_less_diff(a, b);
    let d = choose|d: int|
        0 <= d < 8 && (forall|i: int| 0 <= i < d ==> byte_at(a, i) == byte_at(b, i)) && byte_at(
            a,
            d,
        ) < byte_at(b, d);
    lemma_pack8_lt_at(a, b, d);
    lemma_pack8_int_bounds(a);
    lemma_pack8_int_bounds(b);
}

} // verus!
