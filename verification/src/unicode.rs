//! Unicode letter case and classes, as std answers them from Unicode's
//! tables: each answer is named here, and the tables behind it are not
//! written out.
use vstd::prelude::*;

verus! {

/// `char::is_uppercase`.
pub uninterp spec fn upper(c: char) -> bool;

/// `char::is_lowercase`.
pub uninterp spec fn lower(c: char) -> bool;

/// `char::is_alphabetic`.
pub uninterp spec fn alphabetic(c: char) -> bool;

/// `str::to_lowercase`.
pub uninterp spec fn lowercased(s: Seq<char>) -> Seq<char>;

/// `str::to_uppercase`.
pub uninterp spec fn uppercased(s: Seq<char>) -> Seq<char>;

/// The characters of `char::to_lowercase`.
pub uninterp spec fn char_lowercased(c: char) -> Seq<char>;

/// The characters of `char::to_uppercase`.
pub uninterp spec fn char_uppercased(c: char) -> Seq<char>;

/// std's `char::is_uppercase` (Unicode's Uppercase property).
#[verifier::external_body]
pub(crate) fn is_upper(c: char) -> (r: bool)
    ensures
        r == upper(c),
{
    c.is_uppercase()
}

/// std's `char::is_lowercase` (Unicode's Lowercase property).
#[verifier::external_body]
pub(crate) fn is_lower(c: char) -> (r: bool)
    ensures
        r == lower(c),
{
    c.is_lowercase()
}

/// std's `char::is_alphabetic` (Unicode's Alphabetic property).
#[verifier::external_body]
pub(crate) fn is_alphabetic(c: char) -> (r: bool)
    ensures
        r == alphabetic(c),
{
    c.is_alphabetic()
}

/// std's `str::to_lowercase`.
#[verifier::external_body]
pub(crate) fn to_lowercase(s: &str) -> (r: String)
    ensures
        r@ == lowercased(s@),
{
    s.to_lowercase()
}

/// std's `str::to_uppercase`.
#[verifier::external_body]
pub(crate) fn to_uppercase(s: &str) -> (r: String)
    ensures
        r@ == uppercased(s@),
{
    s.to_uppercase()
}

/// std's `char::to_lowercase`, its characters collected into a string.
#[verifier::external_body]
pub(crate) fn char_to_lowercase(c: char) -> (r: String)
    ensures
        r@ == char_lowercased(c),
{
    c.to_lowercase().collect::<String>()
}

/// std's `char::to_uppercase`, its characters collected into a string.
#[verifier::external_body]
pub(crate) fn char_to_uppercase(c: char) -> (r: String)
    ensures
        r@ == char_uppercased(c),
{
    c.to_uppercase().collect::<String>()
}

} // verus!
