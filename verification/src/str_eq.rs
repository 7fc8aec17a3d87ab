use vstd::prelude::*;

verus! {

/// Equality of string slices is equality of their characters.
///
/// Trusted: `str`'s implementation of `PartialEq::eq` in std, which compares
/// the two slices byte by byte.
pub assume_specification[ <str as PartialEq>::eq ](left: &str, right: &str) -> (same: bool)
    ensures
        same == (left@ == right@),
;

} // verus!
