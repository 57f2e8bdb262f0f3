//! Media types, compared as `mediatype` compares them.
use vstd::prelude::*;
use mediatype::MediaType;

verus! {

/// Whether two texts are valid media types that `mediatype` considers equal.
pub uninterp spec fn media_type_eq(a: Seq<char>, b: Seq<char>) -> bool;

/// `MediaType::parse` on both texts and `MediaType`'s `==`; a text that does
/// not parse compares unequal.
#[verifier::external_body]
pub(crate) fn same_media_type(a: &str, b: &str) -> (r: bool)
    ensures
        r == media_type_eq(a@, b@),
{
    match (MediaType::parse(a), MediaType::parse(b)) {
        (Ok(x), Ok(y)) => x == y,
        _ => false,
    }
}

} // verus!
