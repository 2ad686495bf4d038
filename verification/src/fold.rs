//! Case folding of text, the one operation the equivalence engine takes from
//! the standard library rather than defining itself.
use vstd::prelude::*;

verus! {

/// The case-folded form of a piece of text. The folding that
/// `str::to_lowercase` computes depends on the characters alone, so the
/// result deserves a name that contracts can share.
pub uninterp spec fn lower_of(s: Seq<char>) -> Seq<char>;

/// Relies on `str::to_lowercase`: the returned text is the lowercase mapping
/// of the input and is a function of the input characters alone; an empty
/// input gives an empty result.
#[verifier::external_body]
pub(crate) fn lowercase(s: &String) -> (r: String)
    ensures
        r@ == lower_of(s@),
        s@.len() == 0 ==> r@.len() == 0,
{
    s.to_lowercase()
}

} // verus!
