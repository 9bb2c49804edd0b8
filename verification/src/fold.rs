//! Case folding, which is left to the standard library.

use vstd::prelude::*;

verus! {

/// The lowercase form of `text`: what `str::to_lowercase` returns for a
/// string slice that holds `text`.
pub uninterp spec fn lowercase(text: Seq<char>) -> Seq<char>;

/// `str::to_lowercase` follows the Unicode lowercase mappings, which are not
/// written out here. Assumed of it, and not proved: its result is a function
/// of the characters of its argument alone.
pub assume_specification[ str::to_lowercase ](text: &str) -> (folded: String)
    ensures
        folded@ == lowercase(text@),
;

} // verus!
