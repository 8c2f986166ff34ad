//! Changes of case, as the crate `Inflector` makes them.

use vstd::prelude::*;

verus! {

/// What `Inflector` makes of a string in sentence case.
pub uninterp spec fn sentence_case(value: Seq<char>) -> Seq<char>;

/// What `Inflector` makes of a string in title case.
pub uninterp spec fn title_case(value: Seq<char>) -> Seq<char>;

/// `Inflector::to_sentence_case` of the crate `Inflector`, on a string
/// slice. The call reads nothing but its argument, so its result has a name:
/// the contract says that the string returned is `sentence_case` of the
/// argument, and no more.
#[verifier::external_body]
pub(crate) fn to_sentence_case(value: &str) -> (r: String)
    ensures
        r@ == sentence_case(value@),
{
    inflector::Inflector::to_sentence_case(value)
}

/// `Inflector::to_title_case` of the crate `Inflector`, on a string slice.
/// The call reads nothing but its argument, so its result has a name: the
/// contract says that the string returned is `title_case` of the argument,
/// and no more.
#[verifier::external_body]
pub(crate) fn to_title_case(value: &str) -> (r: String)
    ensures
        r@ == title_case(value@),
{
    inflector::Inflector::to_title_case(value)
}

} // verus!
