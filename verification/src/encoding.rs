//! How the bytes of a text relate to its characters.

use vstd::prelude::*;
use vstd::pervasive::unreached;
use vstd::utf8::{
    decode_utf8, encode_scalar, encode_utf8, encode_utf8_decode_utf8, encode_utf8_first_scalar,
    leading_byte_width_1, length_of_first_scalar, pop_first_scalar, valid_first_scalar,
    valid_leading_and_continuation_bytes_first_codepoint, valid_utf8,
};
use crate::character::{char_len, is_carriage_return, is_line_feed, is_whitespace, Symbol};
use crate::lemmas::{
    lemma_blank_prefix_len, lemma_blank_prefix_len_is, lemma_first_break, lemma_first_break_is,
    lemma_scanned_content, lemma_scanned_push,
};
use crate::model::{
    blank_prefix_len, ends_with_break, first_break, keeps, line_break, scanned, sifted,
    sifted_preserving_newlines, trimmed_end, trimmed_start,
};

verus! {

/// `std::string::FromUtf8Error`, the error of `String::from_utf8`. Nothing is
/// said of what it holds.
#[verifier::external_type_specification]
#[verifier::external_body]
pub struct ExFromUtf8Error(std::string::FromUtf8Error);

/// `String::from_utf8` of the standard library. It is taken on trust that it
/// succeeds on every vector of valid UTF-8 and on no other, and that the
/// string it returns is made of the bytes it was given.
pub assume_specification[ String::from_utf8 ](vec: Vec<u8>) -> (res: Result<String, std::string::FromUtf8Error>)
    ensures
        res is Ok <==> valid_utf8(vec@),
        res matches Ok(s) ==> encode_utf8(s@) == vec@,
;

/// Makes a string of bytes that are known to be valid UTF-8.
pub fn string_from_utf8(bytes: Vec<u8>) -> (s: String)
    requires
        valid_utf8(bytes@),
    ensures
        encode_utf8(s@) == bytes@,
        s@ == decode_utf8(bytes@),
{
    match String::from_utf8(bytes) {
        Ok(s) => {
            proof {
                encode_utf8_decode_utf8(s@);
            }
            s
        },
        Err(_) => unreached(),
    }
}

/// In valid UTF-8 the first byte tells how many bytes the first character
/// has. The character lies within the text, none of its bytes is whitespace
/// unless the first is, and what follows it is valid UTF-8 again.
pub proof fn lemma_first_char(bytes: Seq<u8>)
    requires
        valid_utf8(bytes),
        bytes.len() > 0,
    ensures
        char_len(bytes[0]) <= bytes.len(),
        valid_utf8(bytes.skip(char_len(bytes[0]) as int)),
        forall|i: int| 1 <= i < char_len(bytes[0]) ==> !is_whitespace(#[trigger] bytes[i]),
{
    assert(valid_first_scalar(bytes));
    assert(valid_leading_and_continuation_bytes_first_codepoint(bytes));
    assert(length_of_first_scalar(bytes) == char_len(bytes[0]));
    assert(pop_first_scalar(bytes) == bytes.skip(char_len(bytes[0]) as int));
}

/// The bytes that encode one character.
pub open spec fn bytes_of(c: char) -> Seq<u8> {
    encode_scalar(c as u32)
}

/// A character below `0x80` is encoded as one byte of the same value and
/// class. Any other character is encoded as two to four bytes, none of them
/// below `0x80`.
pub proof fn lemma_bytes_of(c: char)
    ensures
        1 <= bytes_of(c).len() <= 4,
        (c as u32) < 0x80 ==> bytes_of(c) == seq![c as u8] && (c as u8).class() == c.class(),
        (c as u32) >= 0x80 ==> bytes_of(c).len() >= 2 && c.class() is MultiByte,
        (c as u32) >= 0x80 ==> forall|i: int|
            0 <= i < bytes_of(c).len() ==> #[trigger] bytes_of(c)[i] >= 0x80,
{
    let one = seq![c];
    let bytes = encode_utf8(one);
    assert(encode_utf8(one.drop_first()) =~= Seq::<u8>::empty()) by {
        assert(one.drop_first().len() == 0);
    }
    assert(bytes =~= bytes_of(c));
    encode_utf8_first_scalar(one);
    assert(valid_leading_and_continuation_bytes_first_codepoint(bytes));
    let v = c as u32;
    if v < 0x80 {
        assert(leading_byte_width_1(v) == v as u8) by (bit_vector)
            requires
                v < 0x80,
        ;
        assert(bytes_of(c) =~= seq![c as u8]);
    }
}

/// The encoding of two texts, one after the other, is the encoding of the
/// first followed by the encoding of the second.
pub proof fn lemma_encode_concat(a: Seq<char>, b: Seq<char>)
    ensures
        encode_utf8(a + b) == encode_utf8(a) + encode_utf8(b),
    decreases a.len(),
{
    if a.len() == 0 {
        assert(a + b =~= b);
        assert(encode_utf8(a) + encode_utf8(b) =~= encode_utf8(b));
    } else {
        lemma_encode_concat(a.drop_first(), b);
        assert((a + b).drop_first() =~= a.drop_first() + b);
        assert(encode_utf8(a + b) =~= encode_utf8(a) + encode_utf8(b));
    }
}

/// One more character at the end of the text adds its bytes at the end of
/// the encoding.
pub proof fn lemma_encode_push(s: Seq<char>, c: char)
    ensures
        encode_utf8(s.push(c)) == encode_utf8(s) + bytes_of(c),
{
    let one = seq![c];
    assert(encode_utf8(one.drop_first()) =~= Seq::<u8>::empty()) by {
        assert(one.drop_first().len() == 0);
    }
    assert(encode_utf8(one) =~= bytes_of(c));
    lemma_encode_concat(s, one);
    assert(s.push(c) =~= s + one);
}

/// The last byte of the encoding is of the same kind as the last character
/// of the text: the same whitespace, or content. Where it is whitespace, it
/// is the whole encoding of that character.
pub proof fn lemma_encode_last(s: Seq<char>)
    requires
        s.len() > 0,
    ensures
        encode_utf8(s).len() > 0,
        is_whitespace(encode_utf8(s).last()) == is_whitespace(s.last()),
        is_carriage_return(encode_utf8(s).last()) == is_carriage_return(s.last()),
        is_line_feed(encode_utf8(s).last()) == is_line_feed(s.last()),
        is_whitespace(s.last()) ==> encode_utf8(s).drop_last() == encode_utf8(s.drop_last()),
{
    let c = s.last();
    lemma_encode_push(s.drop_last(), c);
    assert(s.drop_last().push(c) =~= s);
    lemma_bytes_of(c);
    let head = encode_utf8(s.drop_last());
    assert((head + bytes_of(c)).last() == bytes_of(c).last());
    if is_whitespace(c) {
        assert((head + bytes_of(c)).drop_last() =~= head);
    }
}

/// Only the empty text has an empty encoding.
pub proof fn lemma_encode_empty(s: Seq<char>)
    ensures
        encode_utf8(s).len() == 0 <==> s.len() == 0,
{
    if s.len() > 0 {
        lemma_encode_last(s);
    }
}

/// Scanning the bytes of a text gives the bytes of the scanned text.
pub proof fn lemma_encode_scanned(s: Seq<char>)
    ensures
        scanned(encode_utf8(s)) == encode_utf8(scanned(s)),
    decreases s.len(),
{
    if s.len() == 0 {
        assert(encode_utf8(s) =~= Seq::<u8>::empty());
    } else {
        let head = s.drop_last();
        let c = s.last();
        let kept = scanned(head);
        lemma_encode_scanned(head);
        lemma_encode_push(head, c);
        assert(head.push(c) =~= s);
        lemma_bytes_of(c);
        lemma_encode_empty(kept);
        if kept.len() > 0 {
            lemma_encode_last(kept);
        }
        if is_whitespace(c) {
            let b = c as u8;
            assert(encode_utf8(head) + bytes_of(c) =~= encode_utf8(head).push(b));
            lemma_scanned_push(encode_utf8(head), b);
            assert(keeps(encode_utf8(kept), b) == keeps(kept, c));
            if keeps(kept, c) {
                lemma_encode_push(kept, c);
                assert(encode_utf8(kept) + bytes_of(c) =~= encode_utf8(kept).push(b));
            }
        } else {
            assert forall|i: int| 0 <= i < bytes_of(c).len() implies !is_whitespace(
                #[trigger] bytes_of(c)[i],
            ) by {}
            lemma_scanned_content(encode_utf8(head), bytes_of(c));
            lemma_encode_push(kept, c);
        }
    }
}

/// Taking the whitespace off the end of the bytes gives the bytes of the
/// text with the whitespace off its end.
pub proof fn lemma_encode_trimmed_end(out: Seq<char>)
    ensures
        trimmed_end(encode_utf8(out)) == encode_utf8(trimmed_end(out)),
{
    let bytes = encode_utf8(out);
    lemma_encode_empty(out);
    if out.len() > 0 {
        lemma_encode_last(out);
        let head = out.drop_last();
        lemma_encode_empty(head);
        if is_line_feed(out.last()) && head.len() > 0 {
            lemma_encode_last(head);
            assert(bytes[bytes.len() - 2] == bytes.drop_last().last());
            if is_carriage_return(head.last()) {
                assert(head.drop_last() =~= out.take(out.len() - 2));
                assert(bytes.drop_last().drop_last() =~= bytes.take(bytes.len() - 2));
            }
        }
        assert(ends_with_break(bytes) == ends_with_break(out));
    }
}

/// Sifting the bytes of a text gives the bytes of the sifted text.
pub proof fn lemma_encode_sifted(s: Seq<char>)
    ensures
        sifted(encode_utf8(s)) == encode_utf8(sifted(s)),
{
    lemma_encode_scanned(s);
    lemma_encode_trimmed_end(scanned(s));
}

/// The first byte of the encoding is of the same kind as the first
/// character of the text.
pub proof fn lemma_encode_first(s: Seq<char>)
    requires
        s.len() > 0,
    ensures
        encode_utf8(s).len() > 0,
        is_whitespace(encode_utf8(s).first()) == is_whitespace(s.first()),
{
    lemma_bytes_of(s[0]);
    assert(encode_utf8(s).first() == bytes_of(s[0])[0]);
}

/// Whitespace is encoded byte for character.
pub proof fn lemma_encode_blank(s: Seq<char>)
    requires
        forall|i: int| 0 <= i < s.len() ==> is_whitespace(#[trigger] s[i]),
    ensures
        encode_utf8(s).len() == s.len(),
        forall|i: int| 0 <= i < s.len() ==> is_whitespace(#[trigger] encode_utf8(s)[i]),
    decreases s.len(),
{
    if s.len() > 0 {
        let head = s.drop_last();
        assert forall|i: int| 0 <= i < head.len() implies is_whitespace(#[trigger] head[i]) by {
            assert(head[i] == s[i]);
        }
        lemma_encode_blank(head);
        lemma_encode_push(head, s.last());
        assert(head.push(s.last()) =~= s);
        assert(is_whitespace(s[s.len() - 1]));
        lemma_bytes_of(s.last());
    }
}

/// A text without a line feed is encoded without one.
pub proof fn lemma_encode_no_break(s: Seq<char>)
    requires
        forall|i: int| 0 <= i < s.len() ==> !is_line_feed(#[trigger] s[i]),
    ensures
        forall|i: int|
            0 <= i < encode_utf8(s).len() ==> !is_line_feed(#[trigger] encode_utf8(s)[i]),
    decreases s.len(),
{
    if s.len() > 0 {
        let head = s.drop_last();
        assert forall|i: int| 0 <= i < head.len() implies !is_line_feed(#[trigger] head[i]) by {
            assert(head[i] == s[i]);
        }
        lemma_encode_no_break(head);
        lemma_encode_push(head, s.last());
        assert(head.push(s.last()) =~= s);
        assert(!is_line_feed(s[s.len() - 1]));
        lemma_bytes_of(s.last());
    }
}

/// The bytes without the whitespace at their start are the bytes of the
/// text without the whitespace at its start.
pub proof fn lemma_encode_trimmed_start(s: Seq<char>)
    ensures
        trimmed_start(encode_utf8(s)) == encode_utf8(trimmed_start(s)),
{
    let k = blank_prefix_len(s) as int;
    lemma_blank_prefix_len(s);
    let blank = s.take(k);
    let body = s.skip(k);
    assert(blank + body =~= s);
    lemma_encode_concat(blank, body);
    lemma_encode_blank(blank);
    let bytes = encode_utf8(s);
    if body.len() > 0 {
        lemma_encode_first(body);
        assert(bytes[k] == encode_utf8(body).first());
    }
    assert forall|i: int| 0 <= i < k implies is_whitespace(#[trigger] bytes[i]) by {
        assert(bytes[i] == encode_utf8(blank)[i]);
    }
    lemma_blank_prefix_len_is(bytes, k);
    assert(bytes.skip(k) =~= encode_utf8(body));
}

/// The first line feed of the bytes is the first line feed of the text:
/// what stands before it, and what stands behind it, are the bytes of what
/// stands before and behind it in the text.
pub proof fn lemma_encode_first_break(s: Seq<char>)
    ensures
        ({
            let n = first_break(s) as int;
            let m = first_break(encode_utf8(s)) as int;
            &&& m == encode_utf8(s.take(n)).len()
            &&& encode_utf8(s).take(m) == encode_utf8(s.take(n))
            &&& (n < s.len()) == (m < encode_utf8(s).len())
            &&& n < s.len() ==> encode_utf8(s).skip(m + 1) == encode_utf8(s.skip(n + 1))
        }),
{
    let n = first_break(s) as int;
    lemma_first_break(s);
    let line = s.take(n);
    let bytes = encode_utf8(s);
    let m = encode_utf8(line).len() as int;
    assert forall|i: int| 0 <= i < line.len() implies !is_line_feed(#[trigger] line[i]) by {
        assert(line[i] == s[i]);
    }
    lemma_encode_no_break(line);
    if n < s.len() {
        let rest = s.skip(n + 1);
        let feed = seq![s[n]];
        assert(line + feed + rest =~= s);
        lemma_encode_concat(line + feed, rest);
        lemma_encode_concat(line, feed);
        lemma_encode_last(feed);
        lemma_encode_blank(feed);
        assert forall|i: int| 0 <= i < m implies !is_line_feed(#[trigger] bytes[i]) by {
            assert(bytes[i] == encode_utf8(line)[i]);
        }
        assert(bytes[m] == encode_utf8(feed)[0]);
        lemma_first_break_is(bytes, m);
        assert(bytes.take(m) =~= encode_utf8(line));
        assert(bytes.skip(m + 1) =~= encode_utf8(rest));
    } else {
        assert(line =~= s);
        lemma_first_break_is(bytes, m);
        assert(bytes.take(m) =~= bytes);
    }
}

/// The line break that ends the bytes of a line is the encoding of the line
/// break that ends the line.
pub proof fn lemma_encode_line_break(line: Seq<char>, line_feed: char)
    requires
        is_line_feed(line_feed),
    ensures
        line_break(encode_utf8(line), line_feed as u8) == encode_utf8(
            line_break(line, line_feed),
        ),
{
    lemma_encode_empty(line);
    lemma_bytes_of(line_feed);
    lemma_encode_push(Seq::<char>::empty(), line_feed);
    assert(encode_utf8(Seq::<char>::empty()) =~= Seq::<u8>::empty());
    assert(Seq::<char>::empty().push(line_feed) =~= seq![line_feed]);
    if line.len() > 0 {
        lemma_encode_last(line);
        if is_carriage_return(line.last()) {
            let c = line.last();
            lemma_bytes_of(c);
            lemma_encode_push(Seq::<char>::empty(), c);
            assert(Seq::<char>::empty().push(c) =~= seq![c]);
            lemma_encode_push(seq![c], line_feed);
            assert(seq![c].push(line_feed) =~= seq![c, line_feed]);
            assert(encode_utf8(seq![c, line_feed]) =~= seq![c as u8, line_feed as u8]);
        }
    }
    if !(line.len() > 0 && is_carriage_return(line.last())) {
        assert(encode_utf8(seq![line_feed]) =~= seq![line_feed as u8]);
    }
}

/// Sifting the bytes of a text line by line gives the bytes of the text
/// sifted line by line.
pub proof fn lemma_encode_sifted_preserving_newlines(s: Seq<char>)
    ensures
        sifted_preserving_newlines(encode_utf8(s)) == encode_utf8(sifted_preserving_newlines(s)),
    decreases s.len(),
{
    let body = trimmed_start(s);
    let n = first_break(body) as int;
    let bytes = encode_utf8(body);
    let m = first_break(bytes) as int;
    lemma_blank_prefix_len(s);
    lemma_encode_trimmed_start(s);
    lemma_encode_first_break(body);
    if n >= body.len() {
        lemma_encode_sifted(body);
    } else {
        lemma_first_break(body);
        lemma_first_break(bytes);
        let line = body.take(n);
        let rest = body.skip(n + 1);
        lemma_encode_sifted(line);
        lemma_encode_sifted_preserving_newlines(rest);
        lemma_encode_empty(sifted_preserving_newlines(rest));
        lemma_encode_line_break(line, body[n]);
        assert(bytes[m] == body[n] as u8) by {
            let feed = seq![body[n]];
            assert(line + feed + rest =~= body);
            lemma_encode_concat(line + feed, rest);
            lemma_encode_concat(line, feed);
            lemma_encode_push(Seq::<char>::empty(), body[n]);
            assert(encode_utf8(Seq::<char>::empty()) =~= Seq::<u8>::empty());
            assert(Seq::<char>::empty().push(body[n]) =~= feed);
            lemma_bytes_of(body[n]);
        }
        let l = sifted(line);
        let b = line_break(line, body[n]);
        let r = sifted_preserving_newlines(rest);
        lemma_encode_concat(l + b, r);
        lemma_encode_concat(l, b);
    }
}

} // verus!
