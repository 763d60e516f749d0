//! Sift through all the lines in the `&str` while preserving deduplicated
//! newlines.

use vstd::prelude::*;
use crate::model::sifted_preserving_newlines;
use crate::WhitespaceSifter;

verus! {

/// This removes duplicate whitespaces within the `&str` line by line, as
/// [`WhitespaceSifter::sift_preserve_newlines`] does.
pub fn sift(input: &str) -> (out: String)
    ensures
        out@ == sifted_preserving_newlines(input@),
{
    input.sift_preserve_newlines()
}

/// This removes duplicate whitespaces within the `&str` that contains
/// carriage-returns line by line, as
/// [`WhitespaceSifter::sift_preserve_newlines`] does.
///
/// This treats carriage-returns as just one `char` in the `&str`.
pub fn sift_with_carriage_return(input: &str) -> (out: String)
    ensures
        out@ == sifted_preserving_newlines(input@),
{
    input.sift_preserve_newlines()
}

} // verus!
