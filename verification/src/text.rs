//! Character-level processing of raw words: whitespace trimming and case
//! folding, as std implements them. Both results are named by uninterpreted
//! spec functions, since their full Unicode definitions are not restated here.
use vstd::prelude::*;

verus! {

/// The sequence of characters left after removing leading and trailing
/// whitespace from `s`, as `str::trim` computes it.
pub uninterp spec fn trim_of(s: Seq<char>) -> Seq<char>;

/// The sequence of characters of the lowercase form of `s`, as
/// `str::to_lowercase` computes it.
pub uninterp spec fn lower_of(s: Seq<char>) -> Seq<char>;

/// Relies on str::trim: it returns the slice with leading and trailing
/// whitespace removed, a function of the characters alone.
#[verifier::external_body]
pub(crate) fn trimmed(s: &str) -> (r: &str)
    ensures
        r@ == trim_of(s@),
{
    s.trim()
}

/// Relies on str::to_lowercase: it returns the lowercase equivalent of the
/// slice, a function of the characters alone.
#[verifier::external_body]
pub(crate) fn lowercased(s: &str) -> (r: String)
    ensures
        r@ == lower_of(s@),
{
    s.to_lowercase()
}

} // verus!
