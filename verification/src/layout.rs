//! Character direction from a static per-language table.

use vstd::prelude::*;
use crate::langid::LanguageIdentifier;

verus! {

/// How text of a language runs.
#[derive(Debug, Clone, Copy, PartialEq, Eq, Structural)]
pub enum CharacterDirection {
    /// Left to right.
    LTR,
    /// Right to left.
    RTL,
    /// Top to bottom.
    TTB,
}

/// The packed language subtags whose script runs right to left, in
/// ascending order: ar, fa, he, ps, sd, ur.
pub open spec fn rtl_langs() -> Seq<u64> {
    seq![
        0x6172000000000000u64,
        0x6661000000000000u64,
        0x6865000000000000u64,
        0x7073000000000000u64,
        0x7364000000000000u64,
        0x7572000000000000u64,
    ]
}

/// Whether a packed language subtag is in the right-to-left table.
pub fn is_rtl(subtag: u64) -> (r: bool)
    ensures
        r == rtl_langs().contains(subtag),
{
    let r = subtag == 0x6172000000000000u64 || subtag == 0x6661000000000000u64 || subtag
        == 0x6865000000000000u64 || subtag == 0x7073000000000000u64 || subtag
        == 0x7364000000000000u64 || subtag == 0x7572000000000000u64;
    proof {
        if r {
            if subtag == 0x6172000000000000u64 {
                assert(rtl_langs()[0] == subtag);
            } else if subtag == 0x6661000000000000u64 {
                assert(rtl_langs()[1] == subtag);
            } else if subtag == 0x6865000000000000u64 {
                assert(rtl_langs()[2] == subtag);
            } else if subtag == 0x7073000000000000u64 {
                assert(rtl_langs()[3] == subtag);
            } else if subtag == 0x7364000000000000u64 {
                assert(rtl_langs()[4] == subtag);
            } else {
                assert(rtl_langs()[5] == subtag);
            }
        } else {
            assert forall|i: int| 0 <= i < rtl_langs().len() implies rtl_langs()[i]
                != subtag by {
            }
        }
    }
    r
}

/// The direction recorded for a language identifier: right to left for
/// the languages of the table, else left to right.  The current table
/// maps no language to top-to-bottom.
pub open spec fn spec_character_direction(language: Option<u64>) -> CharacterDirection {
    match language {
        Some(l) => if rtl_langs().contains(l) {
            CharacterDirection::RTL
        } else {
            CharacterDirection::LTR
        },
        None => CharacterDirection::LTR,
    }
}

impl LanguageIdentifier {
    /// The character direction of this identifier's language.
    pub fn get_character_direction(&self) -> (r: CharacterDirection)
        ensures
            r == spec_character_direction(self.language),
    {
        match self.language {
            Some(l) => {
                if is_rtl(l) {
                    CharacterDirection::RTL
                } else {
                    CharacterDirection::LTR
                }
            },
            None => CharacterDirection::LTR,
        }
    }

    /// The same lookup under the name the locale layer uses.
    pub fn character_direction(&self) -> (r: CharacterDirection)
        ensures
            r == spec_character_direction(self.language),
    {
        self.get_character_direction()
    }
}

} // verus!
