//! The likely-subtags engine: expanding and contracting an
//! under-specified identifier against immutable sorted tables compiled
//! offline from CLDR data.
//!
//! Each table maps a composite packed key to an override triple; a zero
//! field in a triple means "no value".  Lookups are binary searches over
//! the ascending keys.  The search order is strict: with a language, try
//! language+region, then language+script, then language alone; with only a
//! script, try script+region, then script alone; with only a region, the
//! region table.  Fields the caller already supplied, and that were not
//! part of the matched key, are kept over table values.

use vstd::prelude::*;
use crate::codec::{pack8, pack4, lemma_pack8_wf, lemma_pack4_wf};
use crate::langid::LanguageIdentifier;
use crate::subtags::{is_lower_alpha, wf_language, wf_region, wf_script};

verus! {

/// The CLDR release the tables were compiled from.
pub const CLDR_VERSION: &'static str = "36";

// ---------------------------------------------------------------------------
// Tables
// ---------------------------------------------------------------------------

/// One row: a composite key and the recorded triple, zero meaning absent.
pub open spec fn table_sorted(t: Seq<(u128, u64, u32, u32)>) -> bool {
    forall|i: int, j: int| 0 <= i < j < t.len() ==> t[i].0 < t[j].0
}

/// A recorded override triple: each present field is a well-formed
/// stored encoding of its kind.
pub open spec fn wf_triple(l: u64, s: u32, r: u32) -> bool {
    &&& (l != 0 ==> wf_language(l))
    &&& (s != 0 ==> wf_script(s))
    &&& (r != 0 ==> wf_region(r))
}

pub open spec fn wf_table(t: Seq<(u128, u64, u32, u32)>) -> bool {
    &&& table_sorted(t)
    &&& forall|k: int|
        0 <= k < t.len() ==> wf_triple((#[trigger] t[k]).1, t[k].2, t[k].3)
}

/// The six likely-subtags tables.
pub struct LikelyTables {
    pub lang_only: Vec<(u128, u64, u32, u32)>,
    pub lang_region: Vec<(u128, u64, u32, u32)>,
    pub lang_script: Vec<(u128, u64, u32, u32)>,
    pub script_region: Vec<(u128, u64, u32, u32)>,
    pub script_only: Vec<(u128, u64, u32, u32)>,
    pub region_only: Vec<(u128, u64, u32, u32)>,
}

/// The abstract table contents.
#[verifier::ext_equal]
pub struct TablesView {
    pub lang_only: Seq<(u128, u64, u32, u32)>,
    pub lang_region: Seq<(u128, u64, u32, u32)>,
    pub lang_script: Seq<(u128, u64, u32, u32)>,
    pub script_region: Seq<(u128, u64, u32, u32)>,
    pub script_only: Seq<(u128, u64, u32, u32)>,
    pub region_only: Seq<(u128, u64, u32, u32)>,
}

impl LikelyTables {
    pub open spec fn parts(&self) -> TablesView {
        TablesView {
            lang_only: self.lang_only@,
            lang_region: self.lang_region@,
            lang_script: self.lang_script@,
            script_region: self.script_region@,
            script_only: self.script_only@,
            region_only: self.region_only@,
        }
    }

    pub open spec fn wf(&self) -> bool {
        wf_tables(self.parts())
    }
}

pub open spec fn wf_tables(tv: TablesView) -> bool {
    &&& wf_table(tv.lang_only)
    &&& wf_table(tv.lang_region)
    &&& wf_table(tv.lang_script)
    &&& wf_table(tv.script_region)
    &&& wf_table(tv.script_only)
    &&& wf_table(tv.region_only)
}

/// The entry recorded for key `k`, if any.
pub open spec fn table_find(t: Seq<(u128, u64, u32, u32)>, k: u128) -> Option<(u64, u32, u32)>
    decreases t.len(),
{
    if t.len() == 0 {
        None
    } else if t[0].0 == k {
        Some((t[0].1, t[0].2, t[0].3))
    } else {
        table_find(t.drop_first(), k)
    }
}

pub proof fn lemma_table_find_at(t: Seq<(u128, u64, u32, u32)>, k: u128, i: int)
    requires
        0 <= i <= t.len(),
        forall|j: int| 0 <= j < i ==> (#[trigger] t[j]).0 != k,
        i < t.len() ==> t[i].0 == k,
    ensures
        table_find(t, k) == if i < t.len() {
            Some((t[i].1, t[i].2, t[i].3))
        } else {
            None::<(u64, u32, u32)>
        },
    decreases i,
{
    if i == 0 {
    } else {
        let tail = t.drop_first();
        assert(forall|j: int| 0 <= j < i - 1 ==> (#[trigger] tail[j]) == t[j + 1]);
        assert(i - 1 < tail.len() ==> tail[i - 1] == t[i]);
        lemma_table_find_at(tail, k, i - 1);
    }
}

/// A found entry of a well-formed table is a well-formed triple.
pub proof fn lemma_table_find_wf(t: Seq<(u128, u64, u32, u32)>, k: u128)
    requires
        wf_table(t),
        table_find(t, k) is Some,
    ensures
        wf_triple(
            table_find(t, k)->Some_0.0,
            table_find(t, k)->Some_0.1,
            table_find(t, k)->Some_0.2,
        ),
    decreases t.len(),
{
    if t.len() == 0 {
    } else if t[0].0 == k {
        assert(wf_triple(t[0].1, t[0].2, t[0].3));
    } else {
        let tail = t.drop_first();
        assert(wf_table(tail)) by {
            assert(forall|j: int| 0 <= j < tail.len() ==> #[trigger] tail[j] == t[j + 1]);
            assert(forall|a: int, b: int|
                0 <= a < b < tail.len() ==> tail[a] == t[a + 1] && tail[b] == t[b + 1]);
        }
        lemma_table_find_wf(tail, k);
    }
}

/// Binary search over the ascending keys.
pub fn table_lookup(t: &Vec<(u128, u64, u32, u32)>, k: u128) -> (r: Option<(u64, u32, u32)>)
    requires
        table_sorted(t@),
    ensures
        r == table_find(t@, k),
{
    let mut lo: usize = 0;
    let mut hi: usize = t.len();
    while lo < hi
        invariant
            lo <= hi <= t@.len(),
            table_sorted(t@),
            forall|j: int| 0 <= j < lo ==> (#[trigger] t@[j]).0 < k,
            forall|j: int| hi <= j < t@.len() ==> (#[trigger] t@[j]).0 > k,
        decreases hi - lo,
    {
        let mid = lo + (hi - lo) / 2;
        let key = t[mid].0;
        if key < k {
            proof {
                assert(forall|j: int|
                    0 <= j <= mid ==> (#[trigger] t@[j]).0 <= t@[mid as int].0);
            }
            lo = mid + 1;
        } else if key > k {
            proof {
                assert(forall|j: int|
                    mid <= j < t@.len() ==> (#[trigger] t@[j]).0 >= t@[mid as int].0);
            }
            hi = mid;
        } else {
            proof {
                lemma_table_find_at(t@, k, mid as int);
            }
            let e = t[mid];
            return Some((e.1, e.2, e.3));
        }
    }
    proof {
        assert(forall|j: int| 0 <= j < t@.len() ==> (#[trigger] t@[j]).0 != k);
        lemma_table_find_at(t@, k, t@.len() as int);
    }
    None
}

// ---------------------------------------------------------------------------
// The compiled CLDR data
// ---------------------------------------------------------------------------


pub open spec fn cldr_lang_only() -> Seq<(u128, u64, u32, u32)> {
    seq![
        (0x6172000000000000_u128, 0x6172000000000000_u64, 0x61726162_u32, 0x65670000_u32),
        (0x6465000000000000_u128, 0x6465000000000000_u64, 0x6c61746e_u32, 0x64650000_u32),
        (0x656e000000000000_u128, 0x656e000000000000_u64, 0x6c61746e_u32, 0x75730000_u32),
        (0x6573000000000000_u128, 0x6573000000000000_u64, 0x6c61746e_u32, 0x65730000_u32),
        (0x6672000000000000_u128, 0x6672000000000000_u64, 0x6c61746e_u32, 0x66720000_u32),
        (0x67616e0000000000_u128, 0x67616e0000000000_u64, 0x68616e73_u32, 0x636e0000_u32),
        (0x6974000000000000_u128, 0x6974000000000000_u64, 0x6c61746e_u32, 0x69740000_u32),
        (0x6b6b000000000000_u128, 0x6b6b000000000000_u64, 0x6379726c_u32, 0x6b7a0000_u32),
        (0x6b6c780000000000_u128, 0x6b6c780000000000_u64, 0x6c61746e_u32, 0x00000000_u32),
        (0x6b75000000000000_u128, 0x6b75000000000000_u64, 0x6c61746e_u32, 0x74720000_u32),
        (0x6c63700000000000_u128, 0x6c63700000000000_u64, 0x74686169_u32, 0x636e0000_u32),
        (0x6c69660000000000_u128, 0x6c69660000000000_u64, 0x64657661_u32, 0x6e700000_u32),
        (0x6d6b000000000000_u128, 0x6d6b000000000000_u64, 0x6379726c_u32, 0x6d6b0000_u32),
        (0x6d6e000000000000_u128, 0x6d6e000000000000_u64, 0x6379726c_u32, 0x6d6e0000_u32),
        (0x6e62000000000000_u128, 0x6e62000000000000_u64, 0x6c61746e_u32, 0x6e6f0000_u32),
        (0x6e67000000000000_u128, 0x6e67000000000000_u64, 0x6c61746e_u32, 0x6e610000_u32),
        (0x7061000000000000_u128, 0x7061000000000000_u64, 0x67757275_u32, 0x696e0000_u32),
        (0x706c000000000000_u128, 0x706c000000000000_u64, 0x6c61746e_u32, 0x706c0000_u32),
        (0x7275000000000000_u128, 0x7275000000000000_u64, 0x6379726c_u32, 0x72750000_u32),
        (0x7372000000000000_u128, 0x7372000000000000_u64, 0x6379726c_u32, 0x72730000_u32),
        (0x7475710000000000_u128, 0x7475710000000000_u64, 0x6c61746e_u32, 0x00000000_u32),
        (0x7567000000000000_u128, 0x7567000000000000_u64, 0x61726162_u32, 0x636e0000_u32),
        (0x756b000000000000_u128, 0x756b000000000000_u64, 0x6379726c_u32, 0x75610000_u32),
        (0x756e720000000000_u128, 0x756e720000000000_u64, 0x62656e67_u32, 0x696e0000_u32),
        (0x7975650000000000_u128, 0x7975650000000000_u64, 0x68616e74_u32, 0x686b0000_u32),
        (0x7a68000000000000_u128, 0x7a68000000000000_u64, 0x68616e73_u32, 0x636e0000_u32),
    ]
}

pub open spec fn cldr_lang_region() -> Seq<(u128, u64, u32, u32)> {
    seq![
        (0x73720000000000006d650000_u128, 0x7372000000000000_u64, 0x6c61746e_u32, 0x6d650000_u32),
        (0x7a6800000000000074770000_u128, 0x7a68000000000000_u64, 0x68616e74_u32, 0x74770000_u32),
    ]
}

pub open spec fn cldr_lang_script() -> Seq<(u128, u64, u32, u32)> {
    seq![
        (0x6b6b00000000000061726162_u128, 0x6b6b000000000000_u64, 0x61726162_u32, 0x636e0000_u32),
        (0x6c696600000000006c696d62_u128, 0x6c69660000000000_u64, 0x6c696d62_u32, 0x696e0000_u32),
        (0x6d6e0000000000006d6f6e67_u128, 0x6d6e000000000000_u64, 0x6d6f6e67_u32, 0x636e0000_u32),
        (0x75670000000000006379726c_u128, 0x7567000000000000_u64, 0x6379726c_u32, 0x6b7a0000_u32),
        (0x756e72000000000064657661_u128, 0x756e720000000000_u64, 0x64657661_u32, 0x6e700000_u32),
        (0x797565000000000068616e73_u128, 0x7975650000000000_u64, 0x68616e73_u32, 0x636e0000_u32),
        (0x7a6800000000000068616e74_u128, 0x7a68000000000000_u64, 0x68616e74_u32, 0x74770000_u32),
    ]
}

pub open spec fn cldr_script_region() -> Seq<(u128, u64, u32, u32)> {
    seq![
        (0x6379726c756b0000_u128, 0x7275000000000000_u64, 0x6379726c_u32, 0x756b0000_u32),
        (0x6c61746e616d0000_u128, 0x6b75000000000000_u64, 0x6c61746e_u32, 0x616d0000_u32),
        (0x74686169636e0000_u128, 0x6c63700000000000_u64, 0x74686169_u32, 0x636e0000_u32),
    ]
}

pub open spec fn cldr_script_only() -> Seq<(u128, u64, u32, u32)> {
    seq![
        (0x61726162_u128, 0x6172000000000000_u64, 0x61726162_u32, 0x65670000_u32),
        (0x6379726c_u128, 0x7275000000000000_u64, 0x6379726c_u32, 0x72750000_u32),
        (0x6c61746e_u128, 0x656e000000000000_u64, 0x6c61746e_u32, 0x75730000_u32),
    ]
}

pub open spec fn cldr_region_only() -> Seq<(u128, u64, u32, u32)> {
    seq![
        (0x706c0000_u128, 0x706c000000000000_u64, 0x6c61746e_u32, 0x706c0000_u32),
    ]
}


pub open spec fn cldr_tables() -> TablesView {
    TablesView {
        lang_only: cldr_lang_only(),
        lang_region: cldr_lang_region(),
        lang_script: cldr_lang_script(),
        script_region: cldr_script_region(),
        script_only: cldr_script_only(),
        region_only: cldr_region_only(),
    }
}

// ---------------------------------------------------------------------------
// The engine
// ---------------------------------------------------------------------------

pub open spec fn opt_lang(v: u64) -> Option<u64> {
    if v == 0 {
        None
    } else {
        Some(v)
    }
}

pub open spec fn opt_sub(v: u32) -> Option<u32> {
    if v == 0 {
        None
    } else {
        Some(v)
    }
}

/// The composite key of a language plus a four-byte-class subtag.
pub open spec fn pair_key64(l: u64, r: u32) -> u128 {
    ((l as u128) * 0x1_0000_0000 + (r as u128)) as u128
}

/// The composite key of two four-byte-class subtags.
pub open spec fn pair_key32(s: u32, r: u32) -> u128 {
    ((s as u128) * 0x1_0000_0000 + (r as u128)) as u128
}

/// Expansion: `None` when all three fields are present or nothing
/// matched; otherwise the applied override of the first matching table in
/// the strict search order, with caller-supplied fields kept where they
/// were not part of the key.
pub open spec fn spec_add_likely(
    tv: TablesView,
    language: Option<u64>,
    script: Option<u32>,
    region: Option<u32>,
) -> Option<(Option<u64>, Option<u32>, Option<u32>)> {
    if language is Some && script is Some && region is Some {
        None
    } else {
        match language {
            Some(l) => {
                let by_region = match region {
                    Some(r) => table_find(tv.lang_region, pair_key64(l, r)),
                    None => None,
                };
                let by_script = match script {
                    Some(sc) => table_find(tv.lang_script, pair_key64(l, sc)),
                    None => None,
                };
                match by_region {
                    Some(e) => Some((opt_lang(e.0), opt_sub(e.1), opt_sub(e.2))),
                    None => match by_script {
                        Some(e) => Some((opt_lang(e.0), opt_sub(e.1), opt_sub(e.2))),
                        None => match table_find(tv.lang_only, l as u128) {
                            Some(e) => Some(
                                (
                                    opt_lang(e.0),
                                    if script is Some {
                                        script
                                    } else {
                                        opt_sub(e.1)
                                    },
                                    if region is Some {
                                        region
                                    } else {
                                        opt_sub(e.2)
                                    },
                                ),
                            ),
                            None => None,
                        },
                    },
                }
            },
            None => match script {
                Some(sc) => {
                    let by_region = match region {
                        Some(r) => table_find(tv.script_region, pair_key32(sc, r)),
                        None => None,
                    };
                    match by_region {
                        Some(e) => Some((opt_lang(e.0), opt_sub(e.1), opt_sub(e.2))),
                        None => match table_find(tv.script_only, sc as u128) {
                            Some(e) => Some(
                                (
                                    opt_lang(e.0),
                                    opt_sub(e.1),
                                    if region is Some {
                                        region
                                    } else {
                                        opt_sub(e.2)
                                    },
                                ),
                            ),
                            None => None,
                        },
                    }
                },
                None => match region {
                    Some(r) => match table_find(tv.region_only, r as u128) {
                        Some(e) => Some((opt_lang(e.0), opt_sub(e.1), opt_sub(e.2))),
                        None => None,
                    },
                    None => None,
                },
            },
        }
    }
}

/// The fully expanded form: the input itself when complete, else the
/// expansion.
pub open spec fn spec_max_likely(
    tv: TablesView,
    language: Option<u64>,
    script: Option<u32>,
    region: Option<u32>,
) -> Option<(Option<u64>, Option<u32>, Option<u32>)> {
    if language is Some && script is Some && region is Some {
        Some((language, script, region))
    } else {
        spec_add_likely(tv, language, script, region)
    }
}

/// Contraction: the first of language-only, language+region,
/// language+script whose re-expansion reproduces the maximized form.
pub open spec fn spec_remove_likely(
    tv: TablesView,
    language: Option<u64>,
    script: Option<u32>,
    region: Option<u32>,
) -> Option<(Option<u64>, Option<u32>, Option<u32>)> {
    match spec_max_likely(tv, language, script, region) {
        None => None,
        Some(m) => {
            if spec_add_likely(tv, m.0, None, None) == Some(m) {
                Some((m.0, None, None))
            } else if m.2 is Some && spec_add_likely(tv, m.0, None, m.2) == Some(m) {
                Some((m.0, None, m.2))
            } else if m.1 is Some && spec_add_likely(tv, m.0, m.1, None) == Some(m) {
                Some((m.0, m.1, None))
            } else {
                None
            }
        },
    }
}

/// A triple whose present fields are well formed.
pub open spec fn wf_opt_triple(t: (Option<u64>, Option<u32>, Option<u32>)) -> bool {
    &&& (t.0 matches Some(l) ==> wf_language(l))
    &&& (t.1 matches Some(s) ==> wf_script(s))
    &&& (t.2 matches Some(r) ==> wf_region(r))
}

/// Whatever the expansion returns is well formed when the tables and the
/// inputs are.
pub proof fn lemma_add_likely_wf(
    tv: TablesView,
    language: Option<u64>,
    script: Option<u32>,
    region: Option<u32>,
)
    requires
        wf_tables(tv),
        language matches Some(l) ==> wf_language(l),
        script matches Some(s) ==> wf_script(s),
        region matches Some(r) ==> wf_region(r),
    ensures
        spec_add_likely(tv, language, script, region) matches Some(t) ==> wf_opt_triple(t),
{
    match language {
        Some(l) => {
            match region {
                Some(r) => {
                    if table_find(tv.lang_region, pair_key64(l, r)) is Some {
                        lemma_table_find_wf(tv.lang_region, pair_key64(l, r));
                    }
                },
                None => {},
            }
            match script {
                Some(sc) => {
                    if table_find(tv.lang_script, pair_key64(l, sc)) is Some {
                        lemma_table_find_wf(tv.lang_script, pair_key64(l, sc));
                    }
                },
                None => {},
            }
            if table_find(tv.lang_only, l as u128) is Some {
                lemma_table_find_wf(tv.lang_only, l as u128);
            }
        },
        None => {
            match script {
                Some(sc) => {
                    match region {
                        Some(r) => {
                            if table_find(tv.script_region, pair_key32(sc, r)) is Some {
                                lemma_table_find_wf(tv.script_region, pair_key32(sc, r));
                            }
                        },
                        None => {},
                    }
                    if table_find(tv.script_only, sc as u128) is Some {
                        lemma_table_find_wf(tv.script_only, sc as u128);
                    }
                },
                None => {
                    match region {
                        Some(r) => {
                            if table_find(tv.region_only, r as u128) is Some {
                                lemma_table_find_wf(tv.region_only, r as u128);
                            }
                        },
                        None => {},
                    }
                },
            }
        },
    }
}

// ---------------------------------------------------------------------------
// Laws of the engine
// ---------------------------------------------------------------------------

/// Fixed-point law: for every entry of the language-only table, expanding
/// the bare key language yields exactly the recorded triple.
pub proof fn lemma_lang_only_fixed_point(tv: TablesView, l: u64, i: int)
    requires
        wf_tables(tv),
        0 <= i < tv.lang_only.len(),
        tv.lang_only[i].0 == l as u128,
    ensures
        spec_add_likely(tv, Some(l), None, None) == Some(
            (
                opt_lang(tv.lang_only[i].1),
                opt_sub(tv.lang_only[i].2),
                opt_sub(tv.lang_only[i].3),
            ),
        ),
{
    assert forall|j: int| 0 <= j < i implies (#[trigger] tv.lang_only[j]).0 != l as u128 by {
        assert(tv.lang_only[j].0 < tv.lang_only[i].0);
    }
    lemma_table_find_at(tv.lang_only, l as u128, i);
}

/// Fixed-point law for the language-plus-region table.
pub proof fn lemma_lang_region_fixed_point(tv: TablesView, l: u64, r: u32, i: int)
    requires
        wf_tables(tv),
        0 <= i < tv.lang_region.len(),
        tv.lang_region[i].0 == pair_key64(l, r),
    ensures
        spec_add_likely(tv, Some(l), None, Some(r)) == Some(
            (
                opt_lang(tv.lang_region[i].1),
                opt_sub(tv.lang_region[i].2),
                opt_sub(tv.lang_region[i].3),
            ),
        ),
{
    assert forall|j: int| 0 <= j < i implies (#[trigger] tv.lang_region[j]).0 != pair_key64(
        l,
        r,
    ) by {
        assert(tv.lang_region[j].0 < tv.lang_region[i].0);
    }
    lemma_table_find_at(tv.lang_region, pair_key64(l, r), i);
}

/// Fixed-point law for the language-plus-script table.
pub proof fn lemma_lang_script_fixed_point(tv: TablesView, l: u64, s: u32, i: int)
    requires
        wf_tables(tv),
        0 <= i < tv.lang_script.len(),
        tv.lang_script[i].0 == pair_key64(l, s),
    ensures
        spec_add_likely(tv, Some(l), Some(s), None) == Some(
            (
                opt_lang(tv.lang_script[i].1),
                opt_sub(tv.lang_script[i].2),
                opt_sub(tv.lang_script[i].3),
            ),
        ),
{
    assert forall|j: int| 0 <= j < i implies (#[trigger] tv.lang_script[j]).0 != pair_key64(
        l,
        s,
    ) by {
        assert(tv.lang_script[j].0 < tv.lang_script[i].0);
    }
    lemma_table_find_at(tv.lang_script, pair_key64(l, s), i);
}

/// Fixed-point law for the script-plus-region table.
pub proof fn lemma_script_region_fixed_point(tv: TablesView, s: u32, r: u32, i: int)
    requires
        wf_tables(tv),
        0 <= i < tv.script_region.len(),
        tv.script_region[i].0 == pair_key32(s, r),
    ensures
        spec_add_likely(tv, None, Some(s), Some(r)) == Some(
            (
                opt_lang(tv.script_region[i].1),
                opt_sub(tv.script_region[i].2),
                opt_sub(tv.script_region[i].3),
            ),
        ),
{
    assert forall|j: int| 0 <= j < i implies (#[trigger] tv.script_region[j]).0 != pair_key32(
        s,
        r,
    ) by {
        assert(tv.script_region[j].0 < tv.script_region[i].0);
    }
    lemma_table_find_at(tv.script_region, pair_key32(s, r), i);
}

/// Fixed-point law for the script-only table.
pub proof fn lemma_script_only_fixed_point(tv: TablesView, s: u32, i: int)
    requires
        wf_tables(tv),
        0 <= i < tv.script_only.len(),
        tv.script_only[i].0 == s as u128,
    ensures
        spec_add_likely(tv, None, Some(s), None) == Some(
            (
                opt_lang(tv.script_only[i].1),
                opt_sub(tv.script_only[i].2),
                opt_sub(tv.script_only[i].3),
            ),
        ),
{
    assert forall|j: int| 0 <= j < i implies (#[trigger] tv.script_only[j]).0 != s as u128 by {
        assert(tv.script_only[j].0 < tv.script_only[i].0);
    }
    lemma_table_find_at(tv.script_only, s as u128, i);
}

/// Fixed-point law for the region-only table.
pub proof fn lemma_region_only_fixed_point(tv: TablesView, r: u32, i: int)
    requires
        wf_tables(tv),
        0 <= i < tv.region_only.len(),
        tv.region_only[i].0 == r as u128,
    ensures
        spec_add_likely(tv, None, None, Some(r)) == Some(
            (
                opt_lang(tv.region_only[i].1),
                opt_sub(tv.region_only[i].2),
                opt_sub(tv.region_only[i].3),
            ),
        ),
{
    assert forall|j: int| 0 <= j < i implies (#[trigger] tv.region_only[j]).0 != r as u128 by {
        assert(tv.region_only[j].0 < tv.region_only[i].0);
    }
    lemma_table_find_at(tv.region_only, r as u128, i);
}

/// Expanding an already fully specified identifier is a no-op.
pub proof fn lemma_add_likely_complete(
    tv: TablesView,
    language: Option<u64>,
    script: Option<u32>,
    region: Option<u32>,
)
    requires
        language is Some,
        script is Some,
        region is Some,
    ensures
        spec_add_likely(tv, language, script, region) is None,
{
}

/// Idempotence of contraction: contracting what contraction returned
/// gives the same value back.
pub proof fn lemma_remove_likely_idempotent(
    tv: TablesView,
    language: Option<u64>,
    script: Option<u32>,
    region: Option<u32>,
)
    ensures
        spec_remove_likely(tv, language, script, region) matches Some(c)
            ==> spec_remove_likely(tv, c.0, c.1, c.2) == Some(c),
{
    match spec_max_likely(tv, language, script, region) {
        None => {},
        Some(m) => {
            if spec_add_likely(tv, m.0, None, None) == Some(m) {
                assert(spec_max_likely(tv, m.0, None, None) == Some(m));
            } else if m.2 is Some && spec_add_likely(tv, m.0, None, m.2) == Some(m) {
                assert(spec_max_likely(tv, m.0, None, m.2) == Some(m));
            } else if m.1 is Some && spec_add_likely(tv, m.0, m.1, None) == Some(m) {
                assert(spec_max_likely(tv, m.0, m.1, None) == Some(m));
            }
        },
    }
}

// ---------------------------------------------------------------------------
// Executable engine
// ---------------------------------------------------------------------------

/// Expands missing fields against the CLDR tables; `None` means no
/// change.
pub fn add_likely_subtags(
    language: Option<u64>,
    script: Option<u32>,
    region: Option<u32>,
) -> (r: Option<(Option<u64>, Option<u32>, Option<u32>)>)
    ensures
        r == spec_add_likely(cldr_tables(), language, script, region),
{
    let t = build_likely_tables();
    if language.is_some() && script.is_some() && region.is_some() {
        return None;
    }
    if let Some(l) = language {
        if let Some(rg) = region {
            let key = (l as u128) * 0x1_0000_0000 + (rg as u128);
            if let Some(e) = table_lookup(&t.lang_region, key) {
                return Some((opt_lang_exec(e.0), opt_sub_exec(e.1), opt_sub_exec(e.2)));
            }
        }
        if let Some(sc) = script {
            let key = (l as u128) * 0x1_0000_0000 + (sc as u128);
            if let Some(e) = table_lookup(&t.lang_script, key) {
                return Some((opt_lang_exec(e.0), opt_sub_exec(e.1), opt_sub_exec(e.2)));
            }
        }
        if let Some(e) = table_lookup(&t.lang_only, l as u128) {
            let s_out = if script.is_some() {
                script
            } else {
                opt_sub_exec(e.1)
            };
            let r_out = if region.is_some() {
                region
            } else {
                opt_sub_exec(e.2)
            };
            return Some((opt_lang_exec(e.0), s_out, r_out));
        }
        None
    } else if let Some(sc) = script {
        if let Some(rg) = region {
            let key = (sc as u128) * 0x1_0000_0000 + (rg as u128);
            if let Some(e) = table_lookup(&t.script_region, key) {
                return Some((opt_lang_exec(e.0), opt_sub_exec(e.1), opt_sub_exec(e.2)));
            }
        }
        if let Some(e) = table_lookup(&t.script_only, sc as u128) {
            let r_out = if region.is_some() {
                region
            } else {
                opt_sub_exec(e.2)
            };
            return Some((opt_lang_exec(e.0), opt_sub_exec(e.1), r_out));
        }
        None
    } else if let Some(rg) = region {
        if let Some(e) = table_lookup(&t.region_only, rg as u128) {
            return Some((opt_lang_exec(e.0), opt_sub_exec(e.1), opt_sub_exec(e.2)));
        }
        None
    } else {
        None
    }
}

fn opt_lang_exec(v: u64) -> (r: Option<u64>)
    ensures
        r == opt_lang(v),
{
    if v == 0 {
        None
    } else {
        Some(v)
    }
}

fn opt_sub_exec(v: u32) -> (r: Option<u32>)
    ensures
        r == opt_sub(v),
{
    if v == 0 {
        None
    } else {
        Some(v)
    }
}

fn triple_eq(
    a: (Option<u64>, Option<u32>, Option<u32>),
    b: (Option<u64>, Option<u32>, Option<u32>),
) -> (r: bool)
    ensures
        r == (a == b),
{
    let l = match (a.0, b.0) {
        (None, None) => true,
        (Some(x), Some(y)) => x == y,
        _ => false,
    };
    let s = match (a.1, b.1) {
        (None, None) => true,
        (Some(x), Some(y)) => x == y,
        _ => false,
    };
    let rg = match (a.2, b.2) {
        (None, None) => true,
        (Some(x), Some(y)) => x == y,
        _ => false,
    };
    l && s && rg
}

/// Contracts to the shortest form whose expansion reproduces the
/// maximized input; `None` means no table-based contraction exists.
pub fn remove_likely_subtags(
    language: Option<u64>,
    script: Option<u32>,
    region: Option<u32>,
) -> (r: Option<(Option<u64>, Option<u32>, Option<u32>)>)
    ensures
        r == spec_remove_likely(cldr_tables(), language, script, region),
{
    let max = if language.is_some() && script.is_some() && region.is_some() {
        (language, script, region)
    } else {
        match add_likely_subtags(language, script, region) {
            None => {
                return None;
            },
            Some(m) => m,
        }
    };
    if let Some(trial) = add_likely_subtags(max.0, None, None) {
        if triple_eq(trial, max) {
            return Some((max.0, None, None));
        }
    }
    if max.2.is_some() {
        if let Some(trial) = add_likely_subtags(max.0, None, max.2) {
            if triple_eq(trial, max) {
                return Some((max.0, None, max.2));
            }
        }
    }
    if max.1.is_some() {
        if let Some(trial) = add_likely_subtags(max.0, max.1, None) {
            if triple_eq(trial, max) {
                return Some((max.0, max.1, None));
            }
        }
    }
    None
}

impl LanguageIdentifier {
    /// Expands missing script and region (or language) fields in place;
    /// reports whether anything matched.
    pub fn add_likely_subtags(&mut self) -> (r: bool)
        requires
            old(self).wf(),
        ensures
            final(self).wf(),
            final(self).variants@ == old(self).variants@,
            match spec_add_likely(
                cldr_tables(),
                old(self).language,
                old(self).script,
                old(self).region,
            ) {
                None => !r && *final(self) == *old(self),
                Some(t) => r && final(self).language == t.0 && final(self).script == t.1
                    && final(self).region == t.2,
            },
    {
        proof {
            lemma_cldr_tables_wf();
            lemma_add_likely_wf(cldr_tables(), self.language, self.script, self.region);
        }
        match add_likely_subtags(self.language, self.script, self.region) {
            None => false,
            Some(t) => {
                self.language = t.0;
                self.script = t.1;
                self.region = t.2;
                true
            },
        }
    }

    /// Contracts to the shortest equivalent form in place; reports
    /// whether the identifier changed.
    pub fn remove_likely_subtags(&mut self) -> (r: bool)
        requires
            old(self).wf(),
        ensures
            final(self).wf(),
            final(self).variants@ == old(self).variants@,
            match spec_remove_likely(
                cldr_tables(),
                old(self).language,
                old(self).script,
                old(self).region,
            ) {
                None => !r && *final(self) == *old(self),
                Some(t) => {
                    &&& final(self).language == t.0
                    &&& final(self).script == t.1
                    &&& final(self).region == t.2
                    &&& r == !(old(self).language == t.0 && old(self).script == t.1
                        && old(self).region == t.2)
                },
            },
    {
        proof {
            lemma_cldr_tables_wf();
            lemma_remove_likely_wf(cldr_tables(), self.language, self.script, self.region);
        }
        match remove_likely_subtags(self.language, self.script, self.region) {
            None => false,
            Some(t) => {
                let changed = !(triple_eq(t, (self.language, self.script, self.region)));
                self.language = t.0;
                self.script = t.1;
                self.region = t.2;
                changed
            },
        }
    }
}

/// Whatever the contraction returns is well formed when the tables and
/// inputs are.
pub proof fn lemma_remove_likely_wf(
    tv: TablesView,
    language: Option<u64>,
    script: Option<u32>,
    region: Option<u32>,
)
    requires
        wf_tables(tv),
        language matches Some(l) ==> wf_language(l),
        script matches Some(s) ==> wf_script(s),
        region matches Some(r) ==> wf_region(r),
    ensures
        spec_remove_likely(tv, language, script, region) matches Some(t) ==> wf_opt_triple(t),
{
    lemma_add_likely_wf(tv, language, script, region);
}

} // verus!


verus! {

/// Builds the tables; the contents are exactly the compiled CLDR data
/// and every table is sorted with well-formed entries.
pub fn build_likely_tables() -> (t: LikelyTables)
    ensures
        t.parts() == cldr_tables(),
        t.wf(),
{
    let mut t = LikelyTables {
        lang_only: Vec::new(),
        lang_region: Vec::new(),
        lang_script: Vec::new(),
        script_region: Vec::new(),
        script_only: Vec::new(),
        region_only: Vec::new(),
    };
    t.lang_only.push((0x6172000000000000_u128, 0x6172000000000000_u64, 0x61726162_u32, 0x65670000_u32));
    t.lang_only.push((0x6465000000000000_u128, 0x6465000000000000_u64, 0x6c61746e_u32, 0x64650000_u32));
    t.lang_only.push((0x656e000000000000_u128, 0x656e000000000000_u64, 0x6c61746e_u32, 0x75730000_u32));
    t.lang_only.push((0x6573000000000000_u128, 0x6573000000000000_u64, 0x6c61746e_u32, 0x65730000_u32));
    t.lang_only.push((0x6672000000000000_u128, 0x6672000000000000_u64, 0x6c61746e_u32, 0x66720000_u32));
    t.lang_only.push((0x67616e0000000000_u128, 0x67616e0000000000_u64, 0x68616e73_u32, 0x636e0000_u32));
    t.lang_only.push((0x6974000000000000_u128, 0x6974000000000000_u64, 0x6c61746e_u32, 0x69740000_u32));
    t.lang_only.push((0x6b6b000000000000_u128, 0x6b6b000000000000_u64, 0x6379726c_u32, 0x6b7a0000_u32));
    t.lang_only.push((0x6b6c780000000000_u128, 0x6b6c780000000000_u64, 0x6c61746e_u32, 0x00000000_u32));
    t.lang_only.push((0x6b75000000000000_u128, 0x6b75000000000000_u64, 0x6c61746e_u32, 0x74720000_u32));
    t.lang_only.push((0x6c63700000000000_u128, 0x6c63700000000000_u64, 0x74686169_u32, 0x636e0000_u32));
    t.lang_only.push((0x6c69660000000000_u128, 0x6c69660000000000_u64, 0x64657661_u32, 0x6e700000_u32));
    t.lang_only.push((0x6d6b000000000000_u128, 0x6d6b000000000000_u64, 0x6379726c_u32, 0x6d6b0000_u32));
    t.lang_only.push((0x6d6e000000000000_u128, 0x6d6e000000000000_u64, 0x6379726c_u32, 0x6d6e0000_u32));
    t.lang_only.push((0x6e62000000000000_u128, 0x6e62000000000000_u64, 0x6c61746e_u32, 0x6e6f0000_u32));
    t.lang_only.push((0x6e67000000000000_u128, 0x6e67000000000000_u64, 0x6c61746e_u32, 0x6e610000_u32));
    t.lang_only.push((0x7061000000000000_u128, 0x7061000000000000_u64, 0x67757275_u32, 0x696e0000_u32));
    t.lang_only.push((0x706c000000000000_u128, 0x706c000000000000_u64, 0x6c61746e_u32, 0x706c0000_u32));
    t.lang_only.push((0x7275000000000000_u128, 0x7275000000000000_u64, 0x6379726c_u32, 0x72750000_u32));
    t.lang_only.push((0x7372000000000000_u128, 0x7372000000000000_u64, 0x6379726c_u32, 0x72730000_u32));
    t.lang_only.push((0x7475710000000000_u128, 0x7475710000000000_u64, 0x6c61746e_u32, 0x00000000_u32));
    t.lang_only.push((0x7567000000000000_u128, 0x7567000000000000_u64, 0x61726162_u32, 0x636e0000_u32));
    t.lang_only.push((0x756b000000000000_u128, 0x756b000000000000_u64, 0x6379726c_u32, 0x75610000_u32));
    t.lang_only.push((0x756e720000000000_u128, 0x756e720000000000_u64, 0x62656e67_u32, 0x696e0000_u32));
    t.lang_only.push((0x7975650000000000_u128, 0x7975650000000000_u64, 0x68616e74_u32, 0x686b0000_u32));
    t.lang_only.push((0x7a68000000000000_u128, 0x7a68000000000000_u64, 0x68616e73_u32, 0x636e0000_u32));
    
    t.lang_region.push((0x73720000000000006d650000_u128, 0x7372000000000000_u64, 0x6c61746e_u32, 0x6d650000_u32));
    t.lang_region.push((0x7a6800000000000074770000_u128, 0x7a68000000000000_u64, 0x68616e74_u32, 0x74770000_u32));
    
    t.lang_script.push((0x6b6b00000000000061726162_u128, 0x6b6b000000000000_u64, 0x61726162_u32, 0x636e0000_u32));
    t.lang_script.push((0x6c696600000000006c696d62_u128, 0x6c69660000000000_u64, 0x6c696d62_u32, 0x696e0000_u32));
    t.lang_script.push((0x6d6e0000000000006d6f6e67_u128, 0x6d6e000000000000_u64, 0x6d6f6e67_u32, 0x636e0000_u32));
    t.lang_script.push((0x75670000000000006379726c_u128, 0x7567000000000000_u64, 0x6379726c_u32, 0x6b7a0000_u32));
    t.lang_script.push((0x756e72000000000064657661_u128, 0x756e720000000000_u64, 0x64657661_u32, 0x6e700000_u32));
    t.lang_script.push((0x797565000000000068616e73_u128, 0x7975650000000000_u64, 0x68616e73_u32, 0x636e0000_u32));
    t.lang_script.push((0x7a6800000000000068616e74_u128, 0x7a68000000000000_u64, 0x68616e74_u32, 0x74770000_u32));
    
    t.script_region.push((0x6379726c756b0000_u128, 0x7275000000000000_u64, 0x6379726c_u32, 0x756b0000_u32));
    t.script_region.push((0x6c61746e616d0000_u128, 0x6b75000000000000_u64, 0x6c61746e_u32, 0x616d0000_u32));
    t.script_region.push((0x74686169636e0000_u128, 0x6c63700000000000_u64, 0x74686169_u32, 0x636e0000_u32));
    
    t.script_only.push((0x61726162_u128, 0x6172000000000000_u64, 0x61726162_u32, 0x65670000_u32));
    t.script_only.push((0x6379726c_u128, 0x7275000000000000_u64, 0x6379726c_u32, 0x72750000_u32));
    t.script_only.push((0x6c61746e_u128, 0x656e000000000000_u64, 0x6c61746e_u32, 0x75730000_u32));
    
    t.region_only.push((0x706c0000_u128, 0x706c000000000000_u64, 0x6c61746e_u32, 0x706c0000_u32));
    proof {
        assert(t.lang_only@ =~= cldr_lang_only());
        assert(t.lang_region@ =~= cldr_lang_region());
        assert(t.lang_script@ =~= cldr_lang_script());
        assert(t.script_region@ =~= cldr_script_region());
        assert(t.script_only@ =~= cldr_script_only());
        assert(t.region_only@ =~= cldr_region_only());
        assert(t.parts() =~= cldr_tables());
        lemma_cldr_tables_wf();
    }
    t
}

/// Keys ascending between neighbours implies ascending overall.
proof fn lemma_adjacent_sorted(t: Seq<(u128, u64, u32, u32)>)
    requires
        forall|i: int| 0 <= i < t.len() - 1 ==> (#[trigger] t[i]).0 < t[i + 1].0,
    ensures
        table_sorted(t),
{
    assert forall|i: int, j: int| 0 <= i < j < t.len() implies t[i].0 < t[j].0 by {
        lemma_adjacent_sorted_step(t, i, j);
    }
}

proof fn lemma_adjacent_sorted_step(t: Seq<(u128, u64, u32, u32)>, i: int, j: int)
    requires
        forall|k: int| 0 <= k < t.len() - 1 ==> (#[trigger] t[k]).0 < t[k + 1].0,
        0 <= i < j < t.len(),
    ensures
        t[i].0 < t[j].0,
    decreases j - i,
{
    if j == i + 1 {
        assert(t[i].0 < t[i + 1].0);
    } else {
        lemma_adjacent_sorted_step(t, i, j - 1);
        assert(t[j - 1].0 < t[j].0);
    }
}

#[verifier::rlimit(100)]
proof fn lemma_lang_only_sorted()
    ensures
        table_sorted(cldr_lang_only()),
{
    let t = cldr_lang_only();
    assert(forall|i: int| 0 <= i < t.len() - 1 ==> (#[trigger] t[i]).0 < t[i + 1].0);
    lemma_adjacent_sorted(t);
}

#[verifier::rlimit(100)]
proof fn lemma_lang_only_entries()
    ensures
        forall|k: int|
            0 <= k < cldr_lang_only().len() ==> wf_triple(
                (#[trigger] cldr_lang_only()[k]).1,
                cldr_lang_only()[k].2,
                cldr_lang_only()[k].3,
            ),
{
    lemma_cldr_subtags_wf();
    let t = cldr_lang_only();
    assert(wf_triple(t[0].1, t[0].2, t[0].3));
    assert(wf_triple(t[1].1, t[1].2, t[1].3));
    assert(wf_triple(t[2].1, t[2].2, t[2].3));
    assert(wf_triple(t[3].1, t[3].2, t[3].3));
    assert(wf_triple(t[4].1, t[4].2, t[4].3));
    assert(wf_triple(t[5].1, t[5].2, t[5].3));
    assert(wf_triple(t[6].1, t[6].2, t[6].3));
    assert(wf_triple(t[7].1, t[7].2, t[7].3));
    assert(wf_triple(t[8].1, t[8].2, t[8].3));
    assert(wf_triple(t[9].1, t[9].2, t[9].3));
    assert(wf_triple(t[10].1, t[10].2, t[10].3));
    assert(wf_triple(t[11].1, t[11].2, t[11].3));
    assert(wf_triple(t[12].1, t[12].2, t[12].3));
    assert(wf_triple(t[13].1, t[13].2, t[13].3));
    assert(wf_triple(t[14].1, t[14].2, t[14].3));
    assert(wf_triple(t[15].1, t[15].2, t[15].3));
    assert(wf_triple(t[16].1, t[16].2, t[16].3));
    assert(wf_triple(t[17].1, t[17].2, t[17].3));
    assert(wf_triple(t[18].1, t[18].2, t[18].3));
    assert(wf_triple(t[19].1, t[19].2, t[19].3));
    assert(wf_triple(t[20].1, t[20].2, t[20].3));
    assert(wf_triple(t[21].1, t[21].2, t[21].3));
    assert(wf_triple(t[22].1, t[22].2, t[22].3));
    assert(wf_triple(t[23].1, t[23].2, t[23].3));
    assert(wf_triple(t[24].1, t[24].2, t[24].3));
    assert(wf_triple(t[25].1, t[25].2, t[25].3));
    assert forall|k: int| 0 <= k < t.len() implies wf_triple(
        (#[trigger] t[k]).1,
        t[k].2,
        t[k].3,
    ) by {
        assert(t.len() == 26);
    }
}

#[verifier::rlimit(100)]
proof fn lemma_lang_region_sorted()
    ensures
        table_sorted(cldr_lang_region()),
{
    let t = cldr_lang_region();
    assert(forall|i: int| 0 <= i < t.len() - 1 ==> (#[trigger] t[i]).0 < t[i + 1].0);
    lemma_adjacent_sorted(t);
}

#[verifier::rlimit(100)]
proof fn lemma_lang_region_entries()
    ensures
        forall|k: int|
            0 <= k < cldr_lang_region().len() ==> wf_triple(
                (#[trigger] cldr_lang_region()[k]).1,
                cldr_lang_region()[k].2,
                cldr_lang_region()[k].3,
            ),
{
    lemma_cldr_subtags_wf();
    let t = cldr_lang_region();
    assert(wf_triple(t[0].1, t[0].2, t[0].3));
    assert(wf_triple(t[1].1, t[1].2, t[1].3));
    assert forall|k: int| 0 <= k < t.len() implies wf_triple(
        (#[trigger] t[k]).1,
        t[k].2,
        t[k].3,
    ) by {
        assert(t.len() == 2);
    }
}

#[verifier::rlimit(100)]
proof fn lemma_lang_script_sorted()
    ensures
        table_sorted(cldr_lang_script()),
{
    let t = cldr_lang_script();
    assert(forall|i: int| 0 <= i < t.len() - 1 ==> (#[trigger] t[i]).0 < t[i + 1].0);
    lemma_adjacent_sorted(t);
}

#[verifier::rlimit(100)]
proof fn lemma_lang_script_entries()
    ensures
        forall|k: int|
            0 <= k < cldr_lang_script().len() ==> wf_triple(
                (#[trigger] cldr_lang_script()[k]).1,
                cldr_lang_script()[k].2,
                cldr_lang_script()[k].3,
            ),
{
    lemma_cldr_subtags_wf();
    let t = cldr_lang_script();
    assert(wf_triple(t[0].1, t[0].2, t[0].3));
    assert(wf_triple(t[1].1, t[1].2, t[1].3));
    assert(wf_triple(t[2].1, t[2].2, t[2].3));
    assert(wf_triple(t[3].1, t[3].2, t[3].3));
    assert(wf_triple(t[4].1, t[4].2, t[4].3));
    assert(wf_triple(t[5].1, t[5].2, t[5].3));
    assert(wf_triple(t[6].1, t[6].2, t[6].3));
    assert forall|k: int| 0 <= k < t.len() implies wf_triple(
        (#[trigger] t[k]).1,
        t[k].2,
        t[k].3,
    ) by {
        assert(t.len() == 7);
    }
}

#[verifier::rlimit(100)]
proof fn lemma_script_region_sorted()
    ensures
        table_sorted(cldr_script_region()),
{
    let t = cldr_script_region();
    assert(forall|i: int| 0 <= i < t.len() - 1 ==> (#[trigger] t[i]).0 < t[i + 1].0);
    lemma_adjacent_sorted(t);
}

#[verifier::rlimit(100)]
proof fn lemma_script_region_entries()
    ensures
        forall|k: int|
            0 <= k < cldr_script_region().len() ==> wf_triple(
                (#[trigger] cldr_script_region()[k]).1,
                cldr_script_region()[k].2,
                cldr_script_region()[k].3,
            ),
{
    lemma_cldr_subtags_wf();
    let t = cldr_script_region();
    assert(wf_triple(t[0].1, t[0].2, t[0].3));
    assert(wf_triple(t[1].1, t[1].2, t[1].3));
    assert(wf_triple(t[2].1, t[2].2, t[2].3));
    assert forall|k: int| 0 <= k < t.len() implies wf_triple(
        (#[trigger] t[k]).1,
        t[k].2,
        t[k].3,
    ) by {
        assert(t.len() == 3);
    }
}

#[verifier::rlimit(100)]
proof fn lemma_script_only_sorted()
    ensures
        table_sorted(cldr_script_only()),
{
    let t = cldr_script_only();
    assert(forall|i: int| 0 <= i < t.len() - 1 ==> (#[trigger] t[i]).0 < t[i + 1].0);
    lemma_adjacent_sorted(t);
}

#[verifier::rlimit(100)]
proof fn lemma_script_only_entries()
    ensures
        forall|k: int|
            0 <= k < cldr_script_only().len() ==> wf_triple(
                (#[trigger] cldr_script_only()[k]).1,
                cldr_script_only()[k].2,
                cldr_script_only()[k].3,
            ),
{
    lemma_cldr_subtags_wf();
    let t = cldr_script_only();
    assert(wf_triple(t[0].1, t[0].2, t[0].3));
    assert(wf_triple(t[1].1, t[1].2, t[1].3));
    assert(wf_triple(t[2].1, t[2].2, t[2].3));
    assert forall|k: int| 0 <= k < t.len() implies wf_triple(
        (#[trigger] t[k]).1,
        t[k].2,
        t[k].3,
    ) by {
        assert(t.len() == 3);
    }
}

#[verifier::rlimit(100)]
proof fn lemma_region_only_sorted()
    ensures
        table_sorted(cldr_region_only()),
{
    let t = cldr_region_only();
    assert(forall|i: int| 0 <= i < t.len() - 1 ==> (#[trigger] t[i]).0 < t[i + 1].0);
    lemma_adjacent_sorted(t);
}

#[verifier::rlimit(100)]
proof fn lemma_region_only_entries()
    ensures
        forall|k: int|
            0 <= k < cldr_region_only().len() ==> wf_triple(
                (#[trigger] cldr_region_only()[k]).1,
                cldr_region_only()[k].2,
                cldr_region_only()[k].3,
            ),
{
    lemma_cldr_subtags_wf();
    let t = cldr_region_only();
    assert(wf_triple(t[0].1, t[0].2, t[0].3));
    assert forall|k: int| 0 <= k < t.len() implies wf_triple(
        (#[trigger] t[k]).1,
        t[k].2,
        t[k].3,
    ) by {
        assert(t.len() == 1);
    }
}

/// The compiled tables are sorted and their entries well formed.
pub proof fn lemma_cldr_tables_wf()
    ensures
        wf_tables(cldr_tables()),
{
    lemma_lang_only_sorted();
    lemma_lang_only_entries();
    lemma_lang_region_sorted();
    lemma_lang_region_entries();
    lemma_lang_script_sorted();
    lemma_lang_script_entries();
    lemma_script_region_sorted();
    lemma_script_region_entries();
    lemma_script_only_sorted();
    lemma_script_only_entries();
    lemma_region_only_sorted();
    lemma_region_only_entries();
}

/// Well-formedness of every packed subtag the tables mention.
proof fn lemma_cldr_subtags_wf()
    ensures
wf_language(0x6172000000000000_u64),
        wf_language(0x6465000000000000_u64),
        wf_language(0x656e000000000000_u64),
        wf_language(0x6573000000000000_u64),
        wf_language(0x6672000000000000_u64),
        wf_language(0x67616e0000000000_u64),
        wf_language(0x6974000000000000_u64),
        wf_language(0x6b6b000000000000_u64),
        wf_language(0x6b6c780000000000_u64),
        wf_language(0x6b75000000000000_u64),
        wf_language(0x6c63700000000000_u64),
        wf_language(0x6c69660000000000_u64),
        wf_language(0x6d6b000000000000_u64),
        wf_language(0x6d6e000000000000_u64),
        wf_language(0x6e62000000000000_u64),
        wf_language(0x6e67000000000000_u64),
        wf_language(0x7061000000000000_u64),
        wf_language(0x706c000000000000_u64),
        wf_language(0x7275000000000000_u64),
        wf_language(0x7372000000000000_u64),
        wf_language(0x7475710000000000_u64),
        wf_language(0x7567000000000000_u64),
        wf_language(0x756b000000000000_u64),
        wf_language(0x756e720000000000_u64),
        wf_language(0x7975650000000000_u64),
        wf_language(0x7a68000000000000_u64),
        wf_script(0x61726162_u32),
        wf_script(0x62656e67_u32),
        wf_script(0x6379726c_u32),
        wf_script(0x64657661_u32),
        wf_script(0x67757275_u32),
        wf_script(0x68616e73_u32),
        wf_script(0x68616e74_u32),
        wf_script(0x6c61746e_u32),
        wf_script(0x6c696d62_u32),
        wf_script(0x6d6f6e67_u32),
        wf_script(0x74686169_u32),
        wf_region(0x616d0000_u32),
        wf_region(0x636e0000_u32),
        wf_region(0x64650000_u32),
        wf_region(0x65670000_u32),
        wf_region(0x65730000_u32),
        wf_region(0x66720000_u32),
        wf_region(0x686b0000_u32),
        wf_region(0x696e0000_u32),
        wf_region(0x69740000_u32),
        wf_region(0x6b7a0000_u32),
        wf_region(0x6d650000_u32),
        wf_region(0x6d6b0000_u32),
        wf_region(0x6d6e0000_u32),
        wf_region(0x6e610000_u32),
        wf_region(0x6e6f0000_u32),
        wf_region(0x6e700000_u32),
        wf_region(0x706c0000_u32),
        wf_region(0x72730000_u32),
        wf_region(0x72750000_u32),
        wf_region(0x74720000_u32),
        wf_region(0x74770000_u32),
        wf_region(0x75610000_u32),
        wf_region(0x756b0000_u32),
        wf_region(0x75730000_u32),
{
    let b0 = seq![97u8, 114u8];
    assert(pack8(b0) == 0x6172000000000000_u64);
    assert(forall|i: int| 0 <= i < b0.len() ==> is_lower_alpha(#[trigger] b0[i]));
    lemma_pack8_wf(b0, 2, 8);
    let b1 = seq![100u8, 101u8];
    assert(pack8(b1) == 0x6465000000000000_u64);
    assert(forall|i: int| 0 <= i < b1.len() ==> is_lower_alpha(#[trigger] b1[i]));
    lemma_pack8_wf(b1, 2, 8);
    let b2 = seq![101u8, 110u8];
    assert(pack8(b2) == 0x656e000000000000_u64);
    assert(forall|i: int| 0 <= i < b2.len() ==> is_lower_alpha(#[trigger] b2[i]));
    lemma_pack8_wf(b2, 2, 8);
    let b3 = seq![101u8, 115u8];
    assert(pack8(b3) == 0x6573000000000000_u64);
    assert(forall|i: int| 0 <= i < b3.len() ==> is_lower_alpha(#[trigger] b3[i]));
    lemma_pack8_wf(b3, 2, 8);
    let b4 = seq![102u8, 114u8];
    assert(pack8(b4) == 0x6672000000000000_u64);
    assert(forall|i: int| 0 <= i < b4.len() ==> is_lower_alpha(#[trigger] b4[i]));
    lemma_pack8_wf(b4, 2, 8);
    let b5 = seq![103u8, 97u8, 110u8];
    assert(pack8(b5) == 0x67616e0000000000_u64);
    assert(forall|i: int| 0 <= i < b5.len() ==> is_lower_alpha(#[trigger] b5[i]));
    lemma_pack8_wf(b5, 2, 8);
    let b6 = seq![105u8, 116u8];
    assert(pack8(b6) == 0x6974000000000000_u64);
    assert(forall|i: int| 0 <= i < b6.len() ==> is_lower_alpha(#[trigger] b6[i]));
    lemma_pack8_wf(b6, 2, 8);
    let b7 = seq![107u8, 107u8];
    assert(pack8(b7) == 0x6b6b000000000000_u64);
    assert(forall|i: int| 0 <= i < b7.len() ==> is_lower_alpha(#[trigger] b7[i]));
    lemma_pack8_wf(b7, 2, 8);
    let b8 = seq![107u8, 108u8, 120u8];
    assert(pack8(b8) == 0x6b6c780000000000_u64);
    assert(forall|i: int| 0 <= i < b8.len() ==> is_lower_alpha(#[trigger] b8[i]));
    lemma_pack8_wf(b8, 2, 8);
    let b9 = seq![107u8, 117u8];
    assert(pack8(b9) == 0x6b75000000000000_u64);
    assert(forall|i: int| 0 <= i < b9.len() ==> is_lower_alpha(#[trigger] b9[i]));
    lemma_pack8_wf(b9, 2, 8);
    let b10 = seq![108u8, 99u8, 112u8];
    assert(pack8(b10) == 0x6c63700000000000_u64);
    assert(forall|i: int| 0 <= i < b10.len() ==> is_lower_alpha(#[trigger] b10[i]));
    lemma_pack8_wf(b10, 2, 8);
    let b11 = seq![108u8, 105u8, 102u8];
    assert(pack8(b11) == 0x6c69660000000000_u64);
    assert(forall|i: int| 0 <= i < b11.len() ==> is_lower_alpha(#[trigger] b11[i]));
    lemma_pack8_wf(b11, 2, 8);
    let b12 = seq![109u8, 107u8];
    assert(pack8(b12) == 0x6d6b000000000000_u64);
    assert(forall|i: int| 0 <= i < b12.len() ==> is_lower_alpha(#[trigger] b12[i]));
    lemma_pack8_wf(b12, 2, 8);
    let b13 = seq![109u8, 110u8];
    assert(pack8(b13) == 0x6d6e000000000000_u64);
    assert(forall|i: int| 0 <= i < b13.len() ==> is_lower_alpha(#[trigger] b13[i]));
    lemma_pack8_wf(b13, 2, 8);
    let b14 = seq![110u8, 98u8];
    assert(pack8(b14) == 0x6e62000000000000_u64);
    assert(forall|i: int| 0 <= i < b14.len() ==> is_lower_alpha(#[trigger] b14[i]));
    lemma_pack8_wf(b14, 2, 8);
    let b15 = seq![110u8, 103u8];
    assert(pack8(b15) == 0x6e67000000000000_u64);
    assert(forall|i: int| 0 <= i < b15.len() ==> is_lower_alpha(#[trigger] b15[i]));
    lemma_pack8_wf(b15, 2, 8);
    let b16 = seq![112u8, 97u8];
    assert(pack8(b16) == 0x7061000000000000_u64);
    assert(forall|i: int| 0 <= i < b16.len() ==> is_lower_alpha(#[trigger] b16[i]));
    lemma_pack8_wf(b16, 2, 8);
    let b17 = seq![112u8, 108u8];
    assert(pack8(b17) == 0x706c000000000000_u64);
    assert(forall|i: int| 0 <= i < b17.len() ==> is_lower_alpha(#[trigger] b17[i]));
    lemma_pack8_wf(b17, 2, 8);
    let b18 = seq![114u8, 117u8];
    assert(pack8(b18) == 0x7275000000000000_u64);
    assert(forall|i: int| 0 <= i < b18.len() ==> is_lower_alpha(#[trigger] b18[i]));
    lemma_pack8_wf(b18, 2, 8);
    let b19 = seq![115u8, 114u8];
    assert(pack8(b19) == 0x7372000000000000_u64);
    assert(forall|i: int| 0 <= i < b19.len() ==> is_lower_alpha(#[trigger] b19[i]));
    lemma_pack8_wf(b19, 2, 8);
    let b20 = seq![116u8, 117u8, 113u8];
    assert(pack8(b20) == 0x7475710000000000_u64);
    assert(forall|i: int| 0 <= i < b20.len() ==> is_lower_alpha(#[trigger] b20[i]));
    lemma_pack8_wf(b20, 2, 8);
    let b21 = seq![117u8, 103u8];
    assert(pack8(b21) == 0x7567000000000000_u64);
    assert(forall|i: int| 0 <= i < b21.len() ==> is_lower_alpha(#[trigger] b21[i]));
    lemma_pack8_wf(b21, 2, 8);
    let b22 = seq![117u8, 107u8];
    assert(pack8(b22) == 0x756b000000000000_u64);
    assert(forall|i: int| 0 <= i < b22.len() ==> is_lower_alpha(#[trigger] b22[i]));
    lemma_pack8_wf(b22, 2, 8);
    let b23 = seq![117u8, 110u8, 114u8];
    assert(pack8(b23) == 0x756e720000000000_u64);
    assert(forall|i: int| 0 <= i < b23.len() ==> is_lower_alpha(#[trigger] b23[i]));
    lemma_pack8_wf(b23, 2, 8);
    let b24 = seq![121u8, 117u8, 101u8];
    assert(pack8(b24) == 0x7975650000000000_u64);
    assert(forall|i: int| 0 <= i < b24.len() ==> is_lower_alpha(#[trigger] b24[i]));
    lemma_pack8_wf(b24, 2, 8);
    let b25 = seq![122u8, 104u8];
    assert(pack8(b25) == 0x7a68000000000000_u64);
    assert(forall|i: int| 0 <= i < b25.len() ==> is_lower_alpha(#[trigger] b25[i]));
    lemma_pack8_wf(b25, 2, 8);
    let b26 = seq![97u8, 114u8, 97u8, 98u8];
    assert(pack4(b26) == 0x61726162_u32);
    assert(forall|i: int| 0 <= i < b26.len() ==> is_lower_alpha(#[trigger] b26[i]));
    lemma_pack4_wf(b26, 4, 4);
    let b27 = seq![98u8, 101u8, 110u8, 103u8];
    assert(pack4(b27) == 0x62656e67_u32);
    assert(forall|i: int| 0 <= i < b27.len() ==> is_lower_alpha(#[trigger] b27[i]));
    lemma_pack4_wf(b27, 4, 4);
    let b28 = seq![99u8, 121u8, 114u8, 108u8];
    assert(pack4(b28) == 0x6379726c_u32);
    assert(forall|i: int| 0 <= i < b28.len() ==> is_lower_alpha(#[trigger] b28[i]));
    lemma_pack4_wf(b28, 4, 4);
    let b29 = seq![100u8, 101u8, 118u8, 97u8];
    assert(pack4(b29) == 0x64657661_u32);
    assert(forall|i: int| 0 <= i < b29.len() ==> is_lower_alpha(#[trigger] b29[i]));
    lemma_pack4_wf(b29, 4, 4);
    let b30 = seq![103u8, 117u8, 114u8, 117u8];
    assert(pack4(b30) == 0x67757275_u32);
    assert(forall|i: int| 0 <= i < b30.len() ==> is_lower_alpha(#[trigger] b30[i]));
    lemma_pack4_wf(b30, 4, 4);
    let b31 = seq![104u8, 97u8, 110u8, 115u8];
    assert(pack4(b31) == 0x68616e73_u32);
    assert(forall|i: int| 0 <= i < b31.len() ==> is_lower_alpha(#[trigger] b31[i]));
    lemma_pack4_wf(b31, 4, 4);
    let b32 = seq![104u8, 97u8, 110u8, 116u8];
    assert(pack4(b32) == 0x68616e74_u32);
    assert(forall|i: int| 0 <= i < b32.len() ==> is_lower_alpha(#[trigger] b32[i]));
    lemma_pack4_wf(b32, 4, 4);
    let b33 = seq![108u8, 97u8, 116u8, 110u8];
    assert(pack4(b33) == 0x6c61746e_u32);
    assert(forall|i: int| 0 <= i < b33.len() ==> is_lower_alpha(#[trigger] b33[i]));
    lemma_pack4_wf(b33, 4, 4);
    let b34 = seq![108u8, 105u8, 109u8, 98u8];
    assert(pack4(b34) == 0x6c696d62_u32);
    assert(forall|i: int| 0 <= i < b34.len() ==> is_lower_alpha(#[trigger] b34[i]));
    lemma_pack4_wf(b34, 4, 4);
    let b35 = seq![109u8, 111u8, 110u8, 103u8];
    assert(pack4(b35) == 0x6d6f6e67_u32);
    assert(forall|i: int| 0 <= i < b35.len() ==> is_lower_alpha(#[trigger] b35[i]));
    lemma_pack4_wf(b35, 4, 4);
    let b36 = seq![116u8, 104u8, 97u8, 105u8];
    assert(pack4(b36) == 0x74686169_u32);
    assert(forall|i: int| 0 <= i < b36.len() ==> is_lower_alpha(#[trigger] b36[i]));
    lemma_pack4_wf(b36, 4, 4);
    let b37 = seq![97u8, 109u8];
    assert(pack4(b37) == 0x616d0000_u32);
    assert(forall|i: int| 0 <= i < b37.len() ==> is_lower_alpha(#[trigger] b37[i]));
    lemma_pack4_wf(b37, 2, 3);
    let b38 = seq![99u8, 110u8];
    assert(pack4(b38) == 0x636e0000_u32);
    assert(forall|i: int| 0 <= i < b38.len() ==> is_lower_alpha(#[trigger] b38[i]));
    lemma_pack4_wf(b38, 2, 3);
    let b39 = seq![100u8, 101u8];
    assert(pack4(b39) == 0x64650000_u32);
    assert(forall|i: int| 0 <= i < b39.len() ==> is_lower_alpha(#[trigger] b39[i]));
    lemma_pack4_wf(b39, 2, 3);
    let b40 = seq![101u8, 103u8];
    assert(pack4(b40) == 0x65670000_u32);
    assert(forall|i: int| 0 <= i < b40.len() ==> is_lower_alpha(#[trigger] b40[i]));
    lemma_pack4_wf(b40, 2, 3);
    let b41 = seq![101u8, 115u8];
    assert(pack4(b41) == 0x65730000_u32);
    assert(forall|i: int| 0 <= i < b41.len() ==> is_lower_alpha(#[trigger] b41[i]));
    lemma_pack4_wf(b41, 2, 3);
    let b42 = seq![102u8, 114u8];
    assert(pack4(b42) == 0x66720000_u32);
    assert(forall|i: int| 0 <= i < b42.len() ==> is_lower_alpha(#[trigger] b42[i]));
    lemma_pack4_wf(b42, 2, 3);
    let b43 = seq![104u8, 107u8];
    assert(pack4(b43) == 0x686b0000_u32);
    assert(forall|i: int| 0 <= i < b43.len() ==> is_lower_alpha(#[trigger] b43[i]));
    lemma_pack4_wf(b43, 2, 3);
    let b44 = seq![105u8, 110u8];
    assert(pack4(b44) == 0x696e0000_u32);
    assert(forall|i: int| 0 <= i < b44.len() ==> is_lower_alpha(#[trigger] b44[i]));
    lemma_pack4_wf(b44, 2, 3);
    let b45 = seq![105u8, 116u8];
    assert(pack4(b45) == 0x69740000_u32);
    assert(forall|i: int| 0 <= i < b45.len() ==> is_lower_alpha(#[trigger] b45[i]));
    lemma_pack4_wf(b45, 2, 3);
    let b46 = seq![107u8, 122u8];
    assert(pack4(b46) == 0x6b7a0000_u32);
    assert(forall|i: int| 0 <= i < b46.len() ==> is_lower_alpha(#[trigger] b46[i]));
    lemma_pack4_wf(b46, 2, 3);
    let b47 = seq![109u8, 101u8];
    assert(pack4(b47) == 0x6d650000_u32);
    assert(forall|i: int| 0 <= i < b47.len() ==> is_lower_alpha(#[trigger] b47[i]));
    lemma_pack4_wf(b47, 2, 3);
    let b48 = seq![109u8, 107u8];
    assert(pack4(b48) == 0x6d6b0000_u32);
    assert(forall|i: int| 0 <= i < b48.len() ==> is_lower_alpha(#[trigger] b48[i]));
    lemma_pack4_wf(b48, 2, 3);
    let b49 = seq![109u8, 110u8];
    assert(pack4(b49) == 0x6d6e0000_u32);
    assert(forall|i: int| 0 <= i < b49.len() ==> is_lower_alpha(#[trigger] b49[i]));
    lemma_pack4_wf(b49, 2, 3);
    let b50 = seq![110u8, 97u8];
    assert(pack4(b50) == 0x6e610000_u32);
    assert(forall|i: int| 0 <= i < b50.len() ==> is_lower_alpha(#[trigger] b50[i]));
    lemma_pack4_wf(b50, 2, 3);
    let b51 = seq![110u8, 111u8];
    assert(pack4(b51) == 0x6e6f0000_u32);
    assert(forall|i: int| 0 <= i < b51.len() ==> is_lower_alpha(#[trigger] b51[i]));
    lemma_pack4_wf(b51, 2, 3);
    let b52 = seq![110u8, 112u8];
    assert(pack4(b52) == 0x6e700000_u32);
    assert(forall|i: int| 0 <= i < b52.len() ==> is_lower_alpha(#[trigger] b52[i]));
    lemma_pack4_wf(b52, 2, 3);
    let b53 = seq![112u8, 108u8];
    assert(pack4(b53) == 0x706c0000_u32);
    assert(forall|i: int| 0 <= i < b53.len() ==> is_lower_alpha(#[trigger] b53[i]));
    lemma_pack4_wf(b53, 2, 3);
    let b54 = seq![114u8, 115u8];
    assert(pack4(b54) == 0x72730000_u32);
    assert(forall|i: int| 0 <= i < b54.len() ==> is_lower_alpha(#[trigger] b54[i]));
    lemma_pack4_wf(b54, 2, 3);
    let b55 = seq![114u8, 117u8];
    assert(pack4(b55) == 0x72750000_u32);
    assert(forall|i: int| 0 <= i < b55.len() ==> is_lower_alpha(#[trigger] b55[i]));
    lemma_pack4_wf(b55, 2, 3);
    let b56 = seq![116u8, 114u8];
    assert(pack4(b56) == 0x74720000_u32);
    assert(forall|i: int| 0 <= i < b56.len() ==> is_lower_alpha(#[trigger] b56[i]));
    lemma_pack4_wf(b56, 2, 3);
    let b57 = seq![116u8, 119u8];
    assert(pack4(b57) == 0x74770000_u32);
    assert(forall|i: int| 0 <= i < b57.len() ==> is_lower_alpha(#[trigger] b57[i]));
    lemma_pack4_wf(b57, 2, 3);
    let b58 = seq![117u8, 97u8];
    assert(pack4(b58) == 0x75610000_u32);
    assert(forall|i: int| 0 <= i < b58.len() ==> is_lower_alpha(#[trigger] b58[i]));
    lemma_pack4_wf(b58, 2, 3);
    let b59 = seq![117u8, 107u8];
    assert(pack4(b59) == 0x756b0000_u32);
    assert(forall|i: int| 0 <= i < b59.len() ==> is_lower_alpha(#[trigger] b59[i]));
    lemma_pack4_wf(b59, 2, 3);
    let b60 = seq![117u8, 115u8];
    assert(pack4(b60) == 0x75730000_u32);
    assert(forall|i: int| 0 <= i < b60.len() ==> is_lower_alpha(#[trigger] b60[i]));
    lemma_pack4_wf(b60, 2, 3);
}

} // verus!
