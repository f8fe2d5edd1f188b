//! Random identifiers for peers and documents, and their text form.

use vstd::prelude::*;
use uuid::Uuid;

verus! {

/// The identifier that the text `s` denotes, if it is a well-formed UUID.
pub uninterp spec fn parsed_id(s: Seq<char>) -> Option<u128>;

/// Relies on `Uuid::new_v4`: a random version-4 UUID, as an integer.
#[verifier::external_body]
pub(crate) fn fresh_id() -> (r: u128) {
    Uuid::new_v4().as_u128()
}

/// Relies on `Uuid::parse_str`: the identifier that `s` spells, if any.
#[verifier::external_body]
pub(crate) fn parse_id(s: &str) -> (r: Option<u128>)
    ensures
        r == parsed_id(s@),
{
    Uuid::parse_str(s).ok().map(|u| u.as_u128())
}

/// Relies on the `Display` form of `Uuid`: 36 characters, lower-case and
/// hyphenated, which `Uuid::parse_str` reads back to the same identifier.
#[verifier::external_body]
pub(crate) fn id_text(id: u128) -> (r: String)
    ensures
        parsed_id(r@) == Some(id),
        r@.len() == 36,
{
    Uuid::from_u128(id).to_string()
}

} // verus!
