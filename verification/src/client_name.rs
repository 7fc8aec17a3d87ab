//! A client's identity as text.

use vstd::prelude::*;

use crate::message::ClientId;

verus! {

/// A client's identifier written out as the `uuid` crate writes a UUID of
/// these 128 bits: in lower-case hexadecimal, in five groups separated by
/// hyphens.
pub uninterp spec fn hyphenated(client: ClientId) -> Seq<char>;

/// A client's identifier as text.
///
/// Trusted: makes a `Uuid` of the 128 bits with `Uuid::from_u128` and calls
/// its `to_string`, which formats by `Display`, that is hyphenated and in
/// lower case. The text is a function of the bits alone; the contract only
/// gives it its name.
#[verifier::external_body]
pub(crate) fn client_id_text(client: ClientId) -> (text: String)
    ensures
        text@ == hyphenated(client),
{
    uuid::Uuid::from_u128(client).to_string()
}

} // verus!
