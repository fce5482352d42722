//! Display width of text in terminal columns.

use vstd::prelude::*;

verus! {

/// The number of terminal columns that the text `s` takes up, as the
/// `unicode-width` crate computes it (ambiguous-width characters count as one
/// column).
pub uninterp spec fn display_width(s: Seq<char>) -> usize;

/// Calls `unicode_width::UnicodeWidthStr::width` on `s`.
///
/// Trusted: the result is a function of the characters of `s` alone, named
/// `display_width`. Nothing else is claimed about it.
#[verifier::external_body]
pub(crate) fn str_width(s: &str) -> (w: usize)
    ensures
        w == display_width(s@),
{
    unicode_width::UnicodeWidthStr::width(s)
}

} // verus!
