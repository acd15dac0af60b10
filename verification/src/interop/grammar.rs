//! The RON library as a judge of RON text.

use vstd::prelude::*;

verus! {

/// Whether the RON library reads a text as a RON value.
pub uninterp spec fn ron_accepts(text: Seq<char>) -> bool;

/// `ron::from_str` into a `ron::Value`: whether it accepts depends on the text alone.
#[verifier::external_body]
pub(crate) fn parses_as_ron(text: &str) -> (r: bool)
    ensures
        r == ron_accepts(text@),
{
    ron::from_str::<ron::Value>(text).is_ok()
}

} // verus!
