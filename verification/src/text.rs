//! The two operations on text that the standard library performs for this
//! crate. Their contracts are taken on trust.

use vstd::prelude::*;

verus! {

/// The upper-case form of a text, as `str::to_uppercase` of the standard
/// library computes it from the Unicode tables.
pub uninterp spec fn uppercase(s: Seq<char>) -> Seq<char>;

/// Calls `str::to_uppercase`. The contract gives the result its name and
/// claims nothing else of it.
#[verifier::external_body]
pub(crate) fn to_upper(s: &str) -> (r: String)
    ensures
        r@ == uppercase(s@),
{
    s.to_uppercase()
}

/// Calls `==` of the standard library on two string slices, which holds
/// exactly when both hold the same characters in the same order.
#[verifier::external_body]
pub(crate) fn same_text(a: &str, b: &str) -> (r: bool)
    ensures
        r == (a@ == b@),
{
    a == b
}

} // verus!
