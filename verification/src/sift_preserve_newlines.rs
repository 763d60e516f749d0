//! Sifting a text line by line, in one pass over its bytes.

use vstd::prelude::*;
use vstd::utf8::valid_utf8;
use crate::character::{
    CARRIAGE_RETURN, char_len, get_char_metadata, is_carriage_return, is_line_feed, is_whitespace,
    LINE_FEED, Character,
};
use crate::encoding::lemma_first_char;
use crate::lemmas::{
    lemma_blank_prefix_len, lemma_first_break_is, lemma_scanned_content, lemma_scanned_push,
};
use crate::model::{blank_prefix_len, first_break, line_break, scanned, sifted, trimmed_start};
use crate::sift::{extend_from_range, sift_trim_end, sift_trim_start};

verus! {

/// Appends to `out` the next line with content that `input` holds from
/// `*ind` on, sifted, and the line break that ends it. `*ind` is left behind
/// that line break, or at the end of `input` where the line has none.
///
/// Whitespace before the line is skipped, line feeds included, so lines
/// without content leave nothing in `out`.
pub fn sift_preallocated_until_newline(input: &[u8], ind: &mut usize, out: &mut Vec<u8>)
    requires
        *old(ind) <= input@.len(),
        valid_utf8(input@.skip(*old(ind) as int)),
    ensures
        ({
            let body = trimmed_start(input@.skip(*old(ind) as int));
            let n = first_break(body) as int;
            if n < body.len() {
                &&& *final(ind) == input@.len() - body.len() + n + 1
                &&& final(out)@ == old(out)@ + sifted(body.take(n)) + line_break(
                    body.take(n),
                    body[n],
                )
            } else {
                &&& *final(ind) == input@.len()
                &&& final(out)@ == old(out)@ + sifted(body)
            }
        }),
        *final(ind) <= input@.len(),
        valid_utf8(input@.skip(*final(ind) as int)),
{
    let in_len: usize = input.len();
    let ghost rest = input@.skip(*ind as int);
    let ghost body = trimmed_start(rest);
    let ghost from: int = input@.len() - body.len();
    proof {
        lemma_blank_prefix_len(rest);
        assert(body =~= input@.skip(from));
    }
    sift_trim_start(input, ind, out);
    proof {
        let k = blank_prefix_len(rest) as int;
        if k < rest.len() {
            let first = rest.subrange(k, k + char_len(rest[k]));
            assert(first =~= body.take(*ind - from));
            assert forall|i: int| 0 <= i < first.len() implies !is_whitespace(
                #[trigger] first[i],
            ) by {
                assert(first[i] == rest[k + i]);
            }
            lemma_scanned_content(Seq::<u8>::empty(), first);
            assert(Seq::<u8>::empty() + first =~= first);
            assert(scanned(body.take(*ind - from)) =~= first);
            assert(first.last() == rest[k + first.len() - 1]);
        } else {
            assert(body.take(*ind - from) =~= Seq::<u8>::empty());
        }
        assert(input@.subrange(*ind as int, *ind as int) =~= Seq::<u8>::empty());
    }
    // Actual sifting
    let mut copy_len: usize = 0;
    let mut is_last_whitespace: bool = false;
    let mut is_last_carriage_return: bool = false;
    while *ind < in_len
        invariant
            in_len == input@.len(),
            body == trimmed_start(input@.skip(*old(ind) as int)),
            body == input@.skip(from),
            0 <= from <= *ind - copy_len,
            *ind <= in_len,
            valid_utf8(input@.skip(*ind as int)),
            forall|i: int| 0 <= i < *ind - from ==> !is_line_feed(#[trigger] body[i]),
            out@ + input@.subrange(*ind - copy_len, *ind as int) == old(out)@ + scanned(
                body.take(*ind - from),
            ),
            *ind < in_len ==> scanned(body.take(*ind - from)).len() > 0,
            scanned(body.take(*ind - from)).len() > 0 ==> !is_line_feed(
                scanned(body.take(*ind - from)).last(),
            ),
            is_last_whitespace <==> scanned(body.take(*ind - from)).len() > 0 && is_whitespace(
                scanned(body.take(*ind - from)).last(),
            ),
            is_last_carriage_return <==> *ind > from && is_carriage_return(input@[*ind - 1]),
        decreases in_len - *ind,
    {
        let data: u8 = input[*ind];
        let ghost n: int = *ind - from;
        let ghost seen = body.take(n);
        let ghost kept = scanned(seen);
        let ghost pending = input@.subrange(*ind - copy_len, *ind as int);
        proof {
            lemma_first_char(input@.skip(*ind as int));
            assert(input@.skip(*ind as int).skip(char_len(data) as int) =~= input@.skip(
                *ind + char_len(data),
            ));
            assert(body[n] == data);
            lemma_scanned_push(seen, data);
            assert(seen.push(data) =~= body.take(n + 1));
            assert(pending.push(data) =~= input@.subrange(*ind - copy_len, *ind + 1));
            assert(input@.subrange(*ind + 1, *ind + 1) =~= Seq::<u8>::empty());
            assert((out@ + pending).push(data) =~= out@ + pending.push(data));
        }
        match get_char_metadata(data) {
            Character::LineFeed => {
                extend_from_range(out, input, *ind - copy_len, *ind);
                *ind = *ind + 1;
                // Implementation of str::trim_end()
                if is_last_whitespace {
                    let new_out_len: usize = out.len() - 1;
                    out.truncate(new_out_len);
                }
                proof {
                    lemma_first_break_is(body, n);
                    assert(out@ =~= old(out)@ + sifted(seen));
                    if n > 0 {
                        assert(seen.last() == input@[from + n - 1]);
                    }
                }
                // Append newline
                if is_last_carriage_return {
                    out.push(CARRIAGE_RETURN);
                }
                out.push(LINE_FEED);
                proof {
                    assert(out@ =~= old(out)@ + sifted(seen) + line_break(seen, data));
                }
                return ;
            },
            Character::CarriageReturn => {
                is_last_carriage_return = true;
                if is_last_whitespace {
                    extend_from_range(out, input, *ind - copy_len, *ind);
                    copy_len = 0;
                } else {
                    is_last_whitespace = true;
                    copy_len = copy_len + 1;
                }
                *ind = *ind + 1;
            },
            Character::NormalWhitespace => {
                is_last_carriage_return = false;
                if is_last_whitespace {
                    extend_from_range(out, input, *ind - copy_len, *ind);
                    copy_len = 0;
                } else {
                    is_last_whitespace = true;
                    copy_len = copy_len + 1;
                }
                *ind = *ind + 1;
            },
            Character::SingleByte => {
                is_last_whitespace = false;
                copy_len = copy_len + 1;
                is_last_carriage_return = false;
                *ind = *ind + 1;
            },
            Character::MultiByte { len } => {
                proof {
                    let bytes = input@.subrange(*ind as int, *ind + len);
                    assert forall|i: int| 0 <= i < bytes.len() implies !is_whitespace(
                        #[trigger] bytes[i],
                    ) by {
                        assert(bytes[i] == input@.skip(*ind as int)[i]);
                    }
                    lemma_scanned_content(seen, bytes);
                    assert(seen + bytes =~= body.take(n + len));
                    assert(pending + bytes =~= input@.subrange(*ind - copy_len, *ind + len));
                    assert((out@ + pending) + bytes =~= out@ + (pending + bytes));
                    assert(bytes.last() == (kept + bytes).last());
                    assert forall|i: int| 0 <= i < n + len implies !is_line_feed(
                        #[trigger] body[i],
                    ) by {
                        if i >= n {
                            assert(body[i] == bytes[i - n]);
                        }
                    }
                    assert(input@[*ind + len - 1] == bytes.last());
                }
                copy_len = copy_len + len;
                *ind = *ind + len;
                is_last_carriage_return = false;
                is_last_whitespace = false;
            },
        }
    }
    extend_from_range(out, input, *ind - copy_len, *ind);
    proof {
        lemma_first_break_is(body, body.len() as int);
        assert(body.take(body.len() as int) =~= body);
    }
    sift_trim_end(out, is_last_whitespace);
}

} // verus!
