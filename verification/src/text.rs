//! Optional strings, as the records hold them.

use vstd::prelude::*;

verus! {

/// What an optional string stands for in contracts.
pub open spec fn text_view(text: Option<String>) -> Option<Seq<char>> {
    match text {
        Some(t) => Some(t@),
        None => None,
    }
}

/// Copies an optional string.
pub fn copy_text(text: &Option<String>) -> (r: Option<String>)
    ensures
        text_view(r) == text_view(*text),
{
    match text {
        Some(t) => Some(t.clone()),
        None => None,
    }
}

/// Whether an optional string is there and reads as `wanted`.
pub fn text_is(text: &Option<String>, wanted: &String) -> (r: bool)
    ensures
        r == (text_view(*text) == Some(wanted@)),
{
    match text {
        Some(t) => *t == *wanted,
        None => false,
    }
}

} // verus!
