//! Sift duplicate whitespaces away in just one function call.
//!
//! This crate removes duplicate ASCII whitespaces within a UTF-8 encoded
//! string, and the whitespaces at its start and end.
//!
//! # Examples
//!
//! ```rust
//! use whitespace_sifter::WhitespaceSifter;
//! // This prints `1.. 2.. 3.. 4.. 5..`.
//! println!(
//!     "{}",
//!     "1.. \n2..  \n\r\n\n3..   \n\n\n4..    \n\n\r\n\n\n5..     \n\n\n\n\n".sift(),
//! );
//!
//! // This prints `1..\n2..\n3..\n4..\r\n5..`.
//! println!(
//!     "{}",
//!     "1.. \n2..  \n\r\n3..   \n\n\n4..    \r\n\n\r\n\n5..     \n\n\n\n\n"
//!         .sift_preserve_newlines(),
//! );
//! ```
//!
//! # What is proved
//!
//! The module [`model`] says what the sifted text is, for a text of bytes
//! and for a text of `char`s alike. The functions that do the work, in
//! [`mod@sift`] and [`sift_preserve_newlines`], go over the bytes of the
//! string once and are proved to give that text. [`encoding`] shows that
//! sifting the bytes of a string is sifting its characters, so the functions
//! of [`WhitespaceSifter`] say what they return in terms of the characters
//! alone. [`laws`] holds what follows for every input: that sifting twice is
//! sifting once, that a sifted text has no whitespace at its ends and no runs
//! of whitespace, and that nothing but whitespace is ever removed.

use vstd::prelude::*;
use vstd::utf8::{encode_utf8_decode_utf8, encode_utf8_valid_utf8, valid_utf8};

pub mod character;
pub mod encoding;
pub mod laws;
pub mod lemmas;
pub mod model;
pub mod preserve_newline;
pub mod sift;
pub mod sift_preserve_newlines;

use crate::character::{CARRIAGE_RETURN, LINE_FEED};
use crate::encoding::{
    lemma_encode_sifted, lemma_encode_sifted_preserving_newlines, string_from_utf8,
};
use crate::lemmas::{
    lemma_blank_prefix_len, lemma_first_break, lemma_sifted_lines_first, lemma_without_last_break,
};
use crate::model::{first_break, sifted, sifted_lines, sifted_preserving_newlines, trimmed_start};
use crate::sift::sift_preallocated;
use crate::sift_preserve_newlines::sift_preallocated_until_newline;

verus! {

/// A trait containing all string whitespace-sifting functions.
pub trait WhitespaceSifter {
    /// The characters of the string.
    spec fn text(&self) -> Seq<char>;

    /// This removes duplicate whitespaces from a string: every run of ASCII
    /// whitespace is cut down to its first character, and the whitespace at
    /// the start and at the end is removed.
    /// This treats carriage-returns as just one `char` in the string: a
    /// carriage return that starts a run keeps the first line feed of the
    /// run, as one line break.
    #[must_use]
    fn sift(&self) -> (out: String)
        ensures
            out@ == sifted(self.text()),
    ;

    /// This removes duplicate whitespaces from a string, line by line.
    /// This preserves deduplicated newlines: lines without content are
    /// dropped, and the lines that are left are joined by the line breaks
    /// that ended them.
    /// This treats carriage-returns as just one `char` in the string.
    #[must_use]
    fn sift_preserve_newlines(&self) -> (out: String)
        ensures
            out@ == sifted_preserving_newlines(self.text()),
    ;
}

impl WhitespaceSifter for str {
    open spec fn text(&self) -> Seq<char> {
        self@
    }

    fn sift(&self) -> (out: String) {
        let input: &[u8] = self.as_bytes();
        let in_len: usize = input.len();
        let mut out: Vec<u8> = Vec::with_capacity(in_len);
        proof {
            encode_utf8_valid_utf8(self@);
        }
        sift_preallocated(input, &mut out);
        proof {
            lemma_encode_sifted(self@);
            assert(out@ =~= sifted(input@));
            encode_utf8_valid_utf8(sifted(self@));
            encode_utf8_decode_utf8(sifted(self@));
        }
        string_from_utf8(out)
    }

    fn sift_preserve_newlines(&self) -> (out: String) {
        let input: &[u8] = self.as_bytes();
        let in_len: usize = input.len();
        let mut out: Vec<u8> = Vec::with_capacity(in_len);
        let mut ind: usize = 0;
        proof {
            encode_utf8_valid_utf8(self@);
            assert(input@.skip(0) =~= input@);
            assert(out@ + sifted_lines(input@) =~= sifted_lines(input@));
        }
        while ind < in_len
            invariant
                in_len == input@.len(),
                ind <= in_len,
                valid_utf8(input@.skip(ind as int)),
                out@ + sifted_lines(input@.skip(ind as int)) == sifted_lines(input@),
            decreases in_len - ind,
        {
            let ghost rest = input@.skip(ind as int);
            let ghost body = trimmed_start(rest);
            let ghost n = first_break(body) as int;
            let ghost before = out@;
            sift_preallocated_until_newline(input, &mut ind, &mut out);
            proof {
                lemma_blank_prefix_len(rest);
                lemma_first_break(body);
                let left = input@.skip(ind as int);
                if n < body.len() {
                    assert(left =~= body.skip(n + 1));
                    assert(out@ + sifted_lines(left) =~= before + sifted_lines(rest));
                } else {
                    assert(sifted_lines(left) =~= Seq::<u8>::empty()) by {
                        assert(trimmed_start(left).len() == 0);
                    }
                    assert(out@ + sifted_lines(left) =~= before + sifted_lines(rest));
                }
            }
        }
        proof {
            assert(sifted_lines(input@.skip(ind as int)) =~= Seq::<u8>::empty()) by {
                assert(trimmed_start(input@.skip(ind as int)).len() == 0);
            }
            assert(out@ =~= sifted_lines(input@));
            lemma_sifted_lines_first(input@);
            lemma_without_last_break(input@);
            lemma_encode_sifted_preserving_newlines(self@);
            encode_utf8_valid_utf8(sifted_preserving_newlines(self@));
            encode_utf8_decode_utf8(sifted_preserving_newlines(self@));
        }
        if out.len() > 1 {
            let new_out_len: usize = out.len() - 2;
            if out[new_out_len] == CARRIAGE_RETURN && out[new_out_len + 1] == LINE_FEED {
                out.truncate(new_out_len);
            } else {
                let new_out_len: usize = out.len() - 1;
                if out[new_out_len] == LINE_FEED {
                    out.truncate(new_out_len);
                }
            }
        }
        proof {
            assert(out@ =~= sifted_preserving_newlines(input@));
        }
        string_from_utf8(out)
    }
}

impl WhitespaceSifter for String {
    open spec fn text(&self) -> Seq<char> {
        self@
    }

    fn sift(&self) -> (out: String) {
        self.as_str().sift()
    }

    fn sift_preserve_newlines(&self) -> (out: String) {
        self.as_str().sift_preserve_newlines()
    }
}

/// This removes duplicate whitespaces within the `&str`, as
/// [`WhitespaceSifter::sift`] does.
pub fn sift(input: &str) -> (out: String)
    ensures
        out@ == sifted(input@),
{
    input.sift()
}

/// This removes duplicate whitespaces within the `&str` that contains
/// carriage-returns, as [`WhitespaceSifter::sift`] does.
///
/// This treats carriage-returns as just one `char` in the `&str`.
pub fn sift_with_carriage_return(input: &str) -> (out: String)
    ensures
        out@ == sifted(input@),
{
    input.sift()
}

} // verus!
