//! The private-use (`x`) extension section: a bag of pass-through tags.

use vstd::prelude::*;
use vstd::string::StringSliceAdditionalSpecFns;
use crate::codec::{chars_of, string_from_ascii, unpack8, unpack8_bytes};
use crate::errors::{LocaleError, ParserError};
use crate::extensions::{
    lemma_parse_private_wf, parse_private_tag_bytes, spec_parse_private_tag, wf_private_tag,
};
use crate::langid::{push_list8, sorted_strict, variants_bytes};
use crate::parser::{insert_sorted, insert_sorted_spec, lemma_insert_sorted};
use crate::subtags::is_lower_alnum;
use crate::tokens::token_views;

verus! {

/// The abstract content of the private section: its tag encodings, sorted
/// and deduplicated.
#[verifier::ext_equal]
pub struct PrivParts {
    pub tags: Seq<u64>,
}

pub open spec fn wf_private(p: PrivParts) -> bool {
    &&& sorted_strict(p.tags)
    &&& forall|k: int| 0 <= k < p.tags.len() ==> wf_private_tag(#[trigger] p.tags[k])
}

/// The private-use tags of a locale, kept sorted and deduplicated.
#[derive(Debug, Clone)]
pub struct PrivateExtensionList {
    pub tags: Vec<u64>,
}

impl PrivateExtensionList {
    pub open spec fn parts(&self) -> PrivParts {
        PrivParts { tags: self.tags@ }
    }

    pub open spec fn wf(&self) -> bool {
        wf_private(self.parts())
    }

    /// Whether the section holds no tags.
    pub fn is_empty(&self) -> (r: bool)
        ensures
            r == (self.tags@.len() == 0),
    {
        self.tags.len() == 0
    }

    /// Whether `tag` is among the private tags; the tag itself must be
    /// well formed.
    pub fn has_tag(&self, tag: &str) -> (r: Result<bool, LocaleError>)
        ensures
            match spec_parse_private_tag(tag.spec_bytes()) {
                Ok(v) => r == Ok::<bool, LocaleError>(self.tags@.contains(v)),
                Err(e) => r == Err::<bool, LocaleError>(LocaleError::ParserError(e)),
            },
    {
        let b = tag.as_bytes_vec();
        match parse_private_tag_bytes(&b) {
            Err(e) => Err(LocaleError::ParserError(e)),
            Ok(v) => {
                let mut i: usize = 0;
                while i < self.tags.len()
                    invariant
                        i <= self.tags@.len(),
                        spec_parse_private_tag(tag.spec_bytes()) == Ok::<u64, ParserError>(v),
                        forall|j: int| 0 <= j < i ==> #[trigger] self.tags@[j] != v,
                    decreases self.tags@.len() - i,
                {
                    if self.tags[i] == v {
                        assert(self.tags@.contains(v));
                        return Ok(true);
                    }
                    i = i + 1;
                }
                assert(!self.tags@.contains(v));
                Ok(false)
            },
        }
    }

    /// The tags, in canonical order, as text.
    pub fn tags(&self) -> (r: Vec<String>)
        requires
            self.wf(),
        ensures
            r@.len() == self.tags@.len(),
            forall|k: int|
                0 <= k < r@.len() ==> (#[trigger] r@[k])@ == chars_of(unpack8(self.tags@[k])),
    {
        let mut r: Vec<String> = Vec::new();
        let mut k: usize = 0;
        while k < self.tags.len()
            invariant
                k <= self.tags@.len(),
                self.wf(),
                r@.len() == k,
                forall|j: int|
                    0 <= j < k ==> (#[trigger] r@[j])@ == chars_of(unpack8(self.tags@[j])),
            decreases self.tags@.len() - k,
        {
            let v = self.tags[k];
            let b = unpack8_bytes(v);
            proof {
                assert(wf_private_tag(self.tags@[k as int]));
                assert forall|i: int| 0 <= i < b@.len() implies #[trigger] b@[i] < 128 by {
                    assert(is_lower_alnum(unpack8(v)[i]));
                }
            }
            r.push(string_from_ascii(b));
            k = k + 1;
        }
        r
    }

    /// Validates and adds a tag, keeping the list sorted and deduplicated.
    pub fn add_tag(&mut self, tag: &str) -> (r: Result<(), LocaleError>)
        requires
            old(self).wf(),
        ensures
            final(self).wf(),
            match spec_parse_private_tag(tag.spec_bytes()) {
                Ok(v) => r is Ok && final(self).tags@ == insert_sorted_spec(old(self).tags@, v),
                Err(e) => r == Err::<(), LocaleError>(LocaleError::ParserError(e)) && *final(self)
                    == *old(self),
            },
    {
        let b = tag.as_bytes_vec();
        match parse_private_tag_bytes(&b) {
            Err(e) => Err(LocaleError::ParserError(e)),
            Ok(v) => {
                proof {
                    lemma_parse_private_wf(tag.spec_bytes());
                    lemma_insert_sorted(self.tags@, v);
                    lemma_insert_sorted_wf_private(self.tags@, v);
                }
                insert_sorted(&mut self.tags, v);
                Ok(())
            },
        }
    }

    /// Removes a tag; reports whether it was there.  A malformed tag is an
    /// error and the list is unchanged.
    pub fn remove_tag(&mut self, tag: &str) -> (r: Result<bool, LocaleError>)
        requires
            old(self).wf(),
        ensures
            final(self).wf(),
            match spec_parse_private_tag(tag.spec_bytes()) {
                Ok(v) => {
                    &&& r == Ok::<bool, LocaleError>(old(self).tags@.contains(v))
                    &&& forall|x: u64|
                        #[trigger] final(self).tags@.contains(x) <==> (old(self).tags@.contains(x)
                            && x != v)
                },
                Err(e) => r == Err::<bool, LocaleError>(LocaleError::ParserError(e)) && *final(self)
                    == *old(self),
            },
    {
        let b = tag.as_bytes_vec();
        match parse_private_tag_bytes(&b) {
            Err(e) => Err(LocaleError::ParserError(e)),
            Ok(v) => {
                let mut i: usize = 0;
                while i < self.tags.len() && self.tags[i] != v
                    invariant
                        i <= self.tags@.len(),
                        self.tags@ == old(self).tags@,
                        forall|j: int| 0 <= j < i ==> #[trigger] self.tags@[j] != v,
                    decreases self.tags@.len() - i,
                {
                    i = i + 1;
                }
                if i < self.tags.len() {
                    proof {
                        assert(self.tags@.contains(v)) by {
                            assert(self.tags@[i as int] == v);
                        }
                    }
                    self.tags.remove(i);
                    proof {
                        lemma_remove_at(old(self).tags@, i as int, v);
                        assert(self.tags@ =~= old(self).tags@.take(i as int) + old(
                            self,
                        ).tags@.skip(i as int + 1));
                    }
                    Ok(true)
                } else {
                    proof {
                        assert(!self.tags@.contains(v));
                    }
                    Ok(false)
                }
            },
        }
    }

    /// Removes every tag.
    pub fn clear_tags(&mut self)
        ensures
            final(self).tags@.len() == 0,
            final(self).wf(),
    {
        self.tags.clear();
    }
}

/// Removing position `i` of a strictly ascending list removes exactly the
/// element that was there.
proof fn lemma_remove_at(s: Seq<u64>, i: int, v: u64)
    requires
        sorted_strict(s),
        0 <= i < s.len(),
        s[i] == v,
        forall|j: int| 0 <= j < i ==> #[trigger] s[j] != v,
    ensures
        sorted_strict(s.take(i) + s.skip(i + 1)),
        forall|x: u64|
            #[trigger] (s.take(i) + s.skip(i + 1)).contains(x) <==> (s.contains(x) && x != v),
        forall|k: int|
            0 <= k < (s.take(i) + s.skip(i + 1)).len() ==> s.contains(
                #[trigger] (s.take(i) + s.skip(i + 1))[k],
            ),
{
    let r = s.take(i) + s.skip(i + 1);
    assert forall|a: int, b: int| 0 <= a < b < r.len() implies r[a] < r[b] by {
        let ra: int = if a < i {
            a
        } else {
            a + 1
        };
        let rb: int = if b < i {
            b
        } else {
            b + 1
        };
        assert(r[a] == s[ra] && r[b] == s[rb]);
    }
    assert forall|x: u64| #[trigger] r.contains(x) implies s.contains(x) && x != v by {
        let k = choose|k: int| 0 <= k < r.len() && r[k] == x;
        let rk: int = if k < i {
            k
        } else {
            k + 1
        };
        assert(r[k] == s[rk]);
        assert(s.contains(x)) by {
            assert(s[rk] == x);
        }
        if rk != i {
            assert(s[rk] != s[i]);
        }
    }
    assert forall|x: u64| s.contains(x) && x != v implies #[trigger] r.contains(x) by {
        let k = choose|k: int| 0 <= k < s.len() && s[k] == x;
        if k < i {
            assert(r[k] == x);
        } else {
            assert(k > i);
            assert(r[k - 1] == x);
        }
    }
    assert forall|k: int| 0 <= k < r.len() implies s.contains(#[trigger] r[k]) by {
        assert(r.contains(r[k]));
    }
}

/// Insertion into a well-formed private list keeps every tag well formed.
proof fn lemma_insert_sorted_wf_private(s: Seq<u64>, v: u64)
    requires
        forall|k: int| 0 <= k < s.len() ==> wf_private_tag(#[trigger] s[k]),
        wf_private_tag(v),
        sorted_strict(s),
    ensures
        forall|k: int|
            0 <= k < insert_sorted_spec(s, v).len() ==> wf_private_tag(
                #[trigger] insert_sorted_spec(s, v)[k],
            ),
{
    lemma_insert_sorted(s, v);
    let r = insert_sorted_spec(s, v);
    assert forall|k: int| 0 <= k < r.len() implies wf_private_tag(r[k]) by {
        assert(r.contains(r[k]));
        if r[k] != v {
            let i = choose|i: int| 0 <= i < s.len() && s[i] == r[k];
            assert(wf_private_tag(s[i]));
        }
    }
}

// ---------------------------------------------------------------------------
// Parsing and serialization of the private section
// ---------------------------------------------------------------------------

/// The private parser consumes every remaining token; the first bad tag is
/// the error.
pub open spec fn spec_parse_private_at(toks: Seq<Seq<u8>>, i: int, acc: Seq<u64>) -> Result<
    (PrivParts, int),
    ParserError,
>
    decreases toks.len() - i,
{
    if i < 0 || i >= toks.len() {
        Ok((PrivParts { tags: acc }, toks.len() as int))
    } else {
        match spec_parse_private_tag(toks[i]) {
            Err(e) => Err(e),
            Ok(v) => spec_parse_private_at(toks, i + 1, insert_sorted_spec(acc, v)),
        }
    }
}

pub open spec fn spec_parse_private(toks: Seq<Seq<u8>>, i: int) -> Result<
    (PrivParts, int),
    ParserError,
> {
    spec_parse_private_at(toks, i, Seq::empty())
}

impl PrivateExtensionList {
    /// Parses the private section from token `start` to the end of input.
    pub fn try_from_tokens(toks: &Vec<Vec<u8>>, start: usize) -> (r: Result<
        (Self, usize),
        ParserError,
    >)
        requires
            start <= toks@.len(),
        ensures
            ({
                let sp = spec_parse_private(token_views(toks@), start as int);
                match r {
                    Ok(pair) => {
                        &&& sp matches Ok(spair) && spair.0 == pair.0.parts() && spair.1
                            == pair.1 as int
                        &&& pair.0.wf()
                        &&& start <= pair.1 <= toks@.len()
                    },
                    Err(e) => sp == Err::<(PrivParts, int), ParserError>(e),
                }
            }),
    {
        let ghost tv = token_views(toks@);
        let ghost target = spec_parse_private(tv, start as int);
        let mut tags: Vec<u64> = Vec::new();
        let mut i: usize = start;
        while i < toks.len()
            invariant
                start <= i <= toks@.len(),
                tv == token_views(toks@),
                target == spec_parse_private(tv, start as int),
                target == spec_parse_private_at(tv, i as int, tags@),
                sorted_strict(tags@),
                forall|k: int| 0 <= k < tags@.len() ==> wf_private_tag(#[trigger] tags@[k]),
                tags@.len() <= i,
            decreases toks@.len() - i,
        {
            let t = &toks[i];
            proof {
                assert(tv[i as int] == t@);
            }
            match parse_private_tag_bytes(t) {
                Err(e) => {
                    return Err(e);
                },
                Ok(v) => {
                    proof {
                        lemma_parse_private_wf(t@);
                        lemma_insert_sorted(tags@, v);
                        lemma_insert_sorted_wf_private(tags@, v);
                    }
                    insert_sorted(&mut tags, v);
                },
            }
            i = i + 1;
        }
        Ok((PrivateExtensionList { tags }, i))
    }

    /// Appends the canonical text of the section: nothing when empty, else
    /// `-x` and the sorted tags.
    pub fn write_bytes(&self, out: &mut Vec<u8>)
        ensures
            final(out)@ == old(out)@ + serialize_private(self.parts()),
    {
        if self.tags.len() == 0 {
            return ;
        }
        let ghost base = out@;
        out.push(45);
        out.push(120);
        push_list8(out, &self.tags);
        proof {
            assert(out@ =~= base + serialize_private(self.parts()));
        }
    }
}

/// Canonical text of the private section.
pub open spec fn serialize_private(p: PrivParts) -> Seq<u8> {
    if p.tags.len() == 0 {
        Seq::empty()
    } else {
        seq![45u8, 120u8] + variants_bytes(p.tags)
    }
}

impl PartialEq for PrivateExtensionList {
    fn eq(&self, other: &Self) -> (r: bool) {
        crate::langid::vec_u64_eq(&self.tags, &other.tags)
    }
}

impl vstd::std_specs::cmp::PartialEqSpecImpl for PrivateExtensionList {
    open spec fn obeys_eq_spec() -> bool {
        true
    }

    open spec fn eq_spec(&self, other: &Self) -> bool {
        self.tags@ == other.tags@
    }
}

impl Default for PrivateExtensionList {
    /// The empty private section.
    fn default() -> (r: Self)
        ensures
            r.tags@.len() == 0,
            r.wf(),
    {
        PrivateExtensionList { tags: Vec::new() }
    }
}

} // verus!
