//! The failure messages an operation can report, as exact strings.

use vstd::prelude::*;

verus! {

pub open spec fn check_mark_str() -> Seq<char> {
    "\u{2713}"@
}

pub open spec fn error_mark_str() -> Seq<char> {
    "\u{2716}"@
}

pub open spec fn no_id_msg() -> Seq<char> {
    " \u{2716} No id was provided in input"@
}

pub open spec fn too_many_ids_msg() -> Seq<char> {
    " \u{2716} More than one id was given as input"@
}

pub open spec fn no_index_msg(missing_id: Seq<char>) -> Seq<char> {
    " \u{2716} Unable to find item with id: "@ + missing_id
}

pub open spec fn invalid_priority_msg() -> Seq<char> {
    " \u{2716} Priority can only be 1, 2, or 3"@
}

/// The marker that success messages open with.
pub fn check_mark() -> (r: String)
    ensures
        r@ == check_mark_str(),
{
    String::from_str("\u{2713}")
}

/// The error reported when an operation that needs an id token got none.
pub fn no_id_error() -> (r: String)
    ensures
        r@ == no_id_msg(),
{
    String::from_str(" \u{2716} No id was provided in input")
}

/// The error reported when more than one id token was given.
pub fn too_many_ids_error() -> (r: String)
    ensures
        r@ == too_many_ids_msg(),
{
    String::from_str(" \u{2716} More than one id was given as input")
}

/// The error reported when an id is not present in the targeted store.
pub fn no_index(missing_id: String) -> (r: String)
    ensures
        r@ == no_index_msg(missing_id@),
{
    let mut r = String::from_str(" \u{2716} Unable to find item with id: ");
    r.append(missing_id.as_str());
    r
}

/// The error reported when the priority argument is not a single token
/// among 1, 2, and 3.
pub fn invalid_priority() -> (r: String)
    ensures
        r@ == invalid_priority_msg(),
{
    String::from_str(" \u{2716} Priority can only be 1, 2, or 3")
}

} // verus!
