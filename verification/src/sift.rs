//! Sifting a whole text in one pass over its bytes.

use vstd::prelude::*;
use vstd::slice::slice_subrange;
use vstd::utf8::valid_utf8;
use crate::character::{char_len, get_char_metadata, is_carriage_return, is_whitespace, Character};
use crate::encoding::lemma_first_char;
use crate::lemmas::{
    lemma_blank_prefix_len, lemma_blank_prefix_len_is, lemma_scanned_blank, lemma_scanned_content,
    lemma_scanned_push,
};
use crate::model::{blank_prefix_len, ends_with_break, scanned, sifted};

verus! {

/// Appends the bytes of `input` from `start` up to `end` to `out`.
pub fn extend_from_range(out: &mut Vec<u8>, input: &[u8], start: usize, end: usize)
    requires
        start <= end <= input@.len(),
    ensures
        final(out)@ == old(out)@ + input@.subrange(start as int, end as int),
{
    out.extend_from_slice(slice_subrange(input, start, end));
}

/// Skips the whitespace that `input` holds from `*ind` on, and copies the
/// first character after it, if there is one, to `out`. `*ind` is left behind
/// that character, or at the end of `input`.
pub fn sift_trim_start(input: &[u8], ind: &mut usize, out: &mut Vec<u8>)
    requires
        *old(ind) <= input@.len(),
        valid_utf8(input@.skip(*old(ind) as int)),
    ensures
        ({
            let rest = input@.skip(*old(ind) as int);
            let k = blank_prefix_len(rest) as int;
            if k < rest.len() {
                &&& *final(ind) == *old(ind) + k + char_len(rest[k])
                &&& final(out)@ == old(out)@ + rest.subrange(k, k + char_len(rest[k]))
                &&& forall|i: int|
                    k <= i < k + char_len(rest[k]) ==> !is_whitespace(#[trigger] rest[i])
            } else {
                &&& *final(ind) == input@.len()
                &&& final(out)@ == old(out)@
            }
        }),
        *final(ind) <= input@.len(),
        valid_utf8(input@.skip(*final(ind) as int)),
{
    let in_len: usize = input.len();
    let ghost start: int = *ind as int;
    let ghost rest = input@.skip(start);
    while *ind < in_len
        invariant
            in_len == input@.len(),
            start == *old(ind),
            rest == input@.skip(start),
            start <= *ind <= in_len,
            out@ == old(out)@,
            valid_utf8(input@.skip(*ind as int)),
            forall|i: int| 0 <= i < *ind - start ==> is_whitespace(#[trigger] rest[i]),
        decreases in_len - *ind,
    {
        let data: u8 = input[*ind];
        let ghost k: int = *ind - start;
        proof {
            lemma_first_char(input@.skip(*ind as int));
            assert(input@.skip(*ind as int).skip(char_len(data) as int) =~= input@.skip(
                *ind + char_len(data),
            ));
            assert(rest[k] == data);
        }
        match get_char_metadata(data) {
            Character::SingleByte => {
                *ind = *ind + 1;
                out.push(data);
                proof {
                    lemma_blank_prefix_len_is(rest, k);
                    assert(old(out)@.push(data) =~= old(out)@ + rest.subrange(k, k + 1));
                }
                return ;
            },
            Character::MultiByte { len } => {
                extend_from_range(out, input, *ind, *ind + len);
                *ind = *ind + len;
                proof {
                    lemma_blank_prefix_len_is(rest, k);
                    assert(input@.subrange(start + k, start + k + len) =~= rest.subrange(
                        k,
                        k + len,
                    ));
                    assert forall|i: int| k <= i < k + len implies !is_whitespace(
                        #[trigger] rest[i],
                    ) by {
                        assert(rest[i] == input@.skip(start + k)[i - k]);
                    }
                }
                return ;
            },
            _ => {
                *ind = *ind + 1;
            },
        }
    }
    proof {
        lemma_blank_prefix_len_is(rest, rest.len() as int);
    }
}

/// Removes the last byte of `out` if `is_last_whitespace` says that it is
/// whitespace.
pub fn sift_trim_end(out: &mut Vec<u8>, is_last_whitespace: bool)
    requires
        is_last_whitespace ==> old(out)@.len() > 0,
    ensures
        final(out)@ == if is_last_whitespace {
            old(out)@.drop_last()
        } else {
            old(out)@
        },
{
    if is_last_whitespace {
        let new_out_len: usize = out.len() - 1;
        out.truncate(new_out_len);
    }
}

/// Appends the sifted `input` to `out`.
///
/// One pass over the bytes: whitespace at the start is skipped; after that
/// each character is kept or dropped by what was kept last, and what is kept
/// is copied in runs; at the end the whitespace that was kept last is taken
/// off again.
pub fn sift_preallocated(input: &[u8], out: &mut Vec<u8>)
    requires
        valid_utf8(input@),
    ensures
        final(out)@ == old(out)@ + sifted(input@),
{
    let in_len: usize = input.len();
    let mut ind: usize = 0;
    proof {
        assert(input@.skip(0) =~= input@);
    }
    sift_trim_start(input, &mut ind, out);
    proof {
        let k = blank_prefix_len(input@) as int;
        lemma_blank_prefix_len(input@);
        assert(input@.skip(0) =~= input@);
        lemma_scanned_blank(input@.take(k));
        if k < input@.len() {
            let len = char_len(input@[k]) as int;
            let first = input@.subrange(k, k + len);
            assert forall|i: int| 0 <= i < first.len() implies !is_whitespace(
                #[trigger] first[i],
            ) by {
                assert(first[i] == input@[k + i]);
            }
            lemma_scanned_content(input@.take(k), first);
            assert(input@.take(k) + first =~= input@.take(ind as int));
            assert(scanned(input@.take(ind as int)) =~= first);
        } else {
            assert(input@.take(k) =~= input@.take(ind as int));
        }
        assert(input@.subrange(ind as int, ind as int) =~= Seq::<u8>::empty());
    }
    // Actual sifting
    let mut copy_len: usize = 0;
    let mut is_last_whitespace: bool = false;
    let mut is_last_carriage_return: bool = false;
    let mut is_last_carriage_return_line_feed: bool = false;
    while ind < in_len
        invariant
            in_len == input@.len(),
            copy_len <= ind <= in_len,
            valid_utf8(input@.skip(ind as int)),
            out@ + input@.subrange(ind - copy_len, ind as int) == old(out)@ + scanned(
                input@.take(ind as int),
            ),
            ind < in_len ==> scanned(input@.take(ind as int)).len() > 0,
            is_last_whitespace <==> scanned(input@.take(ind as int)).len() > 0 && is_whitespace(
                scanned(input@.take(ind as int)).last(),
            ),
            is_last_carriage_return <==> scanned(input@.take(ind as int)).len() > 0
                && is_carriage_return(scanned(input@.take(ind as int)).last()),
            is_last_carriage_return_line_feed <==> ends_with_break(
                scanned(input@.take(ind as int)),
            ),
        decreases in_len - ind,
    {
        let data: u8 = input[ind];
        let ghost seen = input@.take(ind as int);
        let ghost kept = scanned(seen);
        let ghost pending = input@.subrange(ind - copy_len, ind as int);
        proof {
            lemma_first_char(input@.skip(ind as int));
            assert(input@.skip(ind as int).skip(char_len(data) as int) =~= input@.skip(
                ind + char_len(data),
            ));
            lemma_scanned_push(seen, data);
            assert(seen.push(data) =~= input@.take(ind + 1));
            assert(pending.push(data) =~= input@.subrange(ind - copy_len, ind + 1));
            assert(input@.subrange(ind + 1, ind + 1) =~= Seq::<u8>::empty());
            assert((out@ + pending).push(data) =~= out@ + pending.push(data));
        }
        match get_char_metadata(data) {
            Character::NormalWhitespace => {
                if is_last_whitespace {
                    extend_from_range(out, input, ind - copy_len, ind);
                    copy_len = 0;
                } else {
                    is_last_whitespace = true;
                    copy_len = copy_len + 1;
                    is_last_carriage_return = false;
                    is_last_carriage_return_line_feed = false;
                }
                ind = ind + 1;
            },
            Character::CarriageReturn => {
                if is_last_whitespace {
                    extend_from_range(out, input, ind - copy_len, ind);
                    copy_len = 0;
                } else {
                    is_last_whitespace = true;
                    copy_len = copy_len + 1;
                    is_last_carriage_return = true;
                    is_last_carriage_return_line_feed = false;
                }
                ind = ind + 1;
            },
            Character::LineFeed => {
                if is_last_carriage_return {
                    copy_len = copy_len + 1;
                    is_last_carriage_return = false;
                    is_last_carriage_return_line_feed = true;
                } else if is_last_whitespace {
                    extend_from_range(out, input, ind - copy_len, ind);
                    copy_len = 0;
                } else {
                    is_last_whitespace = true;
                    copy_len = copy_len + 1;
                    is_last_carriage_return = false;
                    is_last_carriage_return_line_feed = false;
                }
                ind = ind + 1;
            },
            Character::SingleByte => {
                is_last_whitespace = false;
                copy_len = copy_len + 1;
                is_last_carriage_return = false;
                is_last_carriage_return_line_feed = false;
                ind = ind + 1;
            },
            Character::MultiByte { len } => {
                proof {
                    let bytes = input@.subrange(ind as int, ind + len);
                    assert forall|i: int| 0 <= i < bytes.len() implies !is_whitespace(
                        #[trigger] bytes[i],
                    ) by {
                        assert(bytes[i] == input@.skip(ind as int)[i]);
                    }
                    lemma_scanned_content(seen, bytes);
                    assert(seen + bytes =~= input@.take(ind + len));
                    assert(pending + bytes =~= input@.subrange(ind - copy_len, ind + len));
                    assert((out@ + pending) + bytes =~= out@ + (pending + bytes));
                    assert(bytes.last() == (kept + bytes).last());
                }
                copy_len = copy_len + len;
                ind = ind + len;
                is_last_carriage_return = false;
                is_last_whitespace = false;
                is_last_carriage_return_line_feed = false;
            },
        }
    }
    extend_from_range(out, input, ind - copy_len, ind);
    proof {
        assert(input@.take(ind as int) =~= input@);
    }
    // Implementation of str::trim_end()
    if is_last_carriage_return_line_feed {
        let new_out_len: usize = out.len() - 2;
        out.truncate(new_out_len);
        proof {
            let kept = scanned(input@);
            assert(out@ =~= old(out)@ + kept.take(kept.len() - 2));
        }
        return ;
    }
    sift_trim_end(out, is_last_whitespace);
    proof {
        let kept = scanned(input@);
        if is_last_whitespace {
            assert(out@ =~= old(out)@ + kept.drop_last());
        }
    }
}

} // verus!
