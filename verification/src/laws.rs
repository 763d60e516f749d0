//! What holds of every sifted text.
//!
//! Each law is stated for any kind of symbol, so it holds of the characters
//! of a string as well as of its bytes.

use vstd::prelude::*;
use crate::character::{is_carriage_return, is_line_feed, is_whitespace, Symbol};
use crate::lemmas::{
    lemma_blank_prefix_len, lemma_blank_prefix_len_is, lemma_collapsed_at, lemma_collapsed_is_fixed,
    lemma_first_break, lemma_first_break_is, lemma_scanned_blank, lemma_scanned_content,
    lemma_scanned_push, lemma_sifted_of_content, lemma_sifted_shape,
};
use crate::model::{
    blank_prefix_len, ends_with_break, first_break, is_collapsed, keeps, line_break, scanned,
    sifted, sifted_preserving_newlines, trimmed_start,
};

verus! {

/// The test for content, as a function value: true of every symbol that is
/// not whitespace.
pub open spec fn is_content<T: Symbol>() -> spec_fn(T) -> bool {
    |x: T| !is_whitespace(x)
}

/// Sifting twice is sifting once.
pub proof fn lemma_sifted_is_idempotent<T: Symbol>(s: Seq<T>)
    ensures
        sifted(sifted(s)) == sifted(s),
{
    lemma_sifted_shape(s);
    lemma_collapsed_is_fixed(sifted(s));
}

/// The sifted text neither starts nor ends with whitespace.
pub proof fn lemma_sifted_has_no_outer_whitespace<T: Symbol>(s: Seq<T>)
    ensures
        sifted(s).len() > 0 ==> !is_whitespace(sifted(s).first()) && !is_whitespace(
            sifted(s).last(),
        ),
{
    lemma_sifted_shape(s);
}

/// In the sifted text two symbols of whitespace stand side by side only as a
/// line break: a carriage return and a line feed. Such a line break stands
/// between content.
pub proof fn lemma_sifted_has_no_whitespace_runs<T: Symbol>(s: Seq<T>)
    ensures
        forall|i: int|
            0 <= i < sifted(s).len() - 1 && is_whitespace(#[trigger] sifted(s)[i])
                && is_whitespace(sifted(s)[i + 1]) ==> {
                &&& is_carriage_return(sifted(s)[i])
                &&& is_line_feed(sifted(s)[i + 1])
                &&& 0 < i && !is_whitespace(sifted(s)[i - 1])
                &&& i + 2 < sifted(s).len() && !is_whitespace(sifted(s)[i + 2])
            },
{
    let out = sifted(s);
    lemma_sifted_shape(s);
    assert forall|i: int|
        0 <= i < out.len() - 1 && is_whitespace(#[trigger] out[i]) && is_whitespace(
            out[i + 1],
        ) implies {
        &&& is_carriage_return(out[i])
        &&& is_line_feed(out[i + 1])
        &&& 0 < i && !is_whitespace(out[i - 1])
        &&& i + 2 < out.len() && !is_whitespace(out[i + 2])
    } by {
        lemma_collapsed_at(out, i + 1);
        lemma_collapsed_at(out, i);
        if i + 2 < out.len() && is_whitespace(out[i + 2]) {
            lemma_collapsed_at(out, i + 2);
        }
    }
}

/// Scanning removes whitespace only.
proof fn lemma_scanned_keeps_content<T: Symbol>(s: Seq<T>)
    ensures
        scanned(s).filter(is_content()) == s.filter(is_content()),
    decreases s.len(),
{
    reveal(Seq::filter);
    if s.len() > 0 {
        let kept = scanned(s.drop_last());
        lemma_scanned_keeps_content(s.drop_last());
        if keeps(kept, s.last()) {
            assert(kept.push(s.last()).drop_last() =~= kept);
        }
    }
}

/// Sifting removes whitespace only: the content of the sifted text is the
/// content of the text, symbol for symbol and in the same order.
pub proof fn lemma_sifted_keeps_content<T: Symbol>(s: Seq<T>)
    ensures
        sifted(s).filter(is_content()) == s.filter(is_content()),
{
    reveal(Seq::filter);
    let out = scanned(s);
    lemma_scanned_keeps_content(s);
    let p = is_content::<T>();
    if ends_with_break(out) {
        let head = out.drop_last();
        assert(!p(out.last()));
        assert(out.filter(p) == head.filter(p));
        assert(!p(head.last()));
        assert(head.filter(p) == head.drop_last().filter(p));
        assert(head.drop_last() =~= out.take(out.len() - 2));
    } else if out.len() > 0 && is_whitespace(out.last()) {
        assert(!p(out.last()));
        assert(out.filter(p) == out.drop_last().filter(p));
    }
}

/// A text without whitespace is left as it is, by both ways of sifting. This
/// holds of a text made of multi-byte characters only, since none of them is
/// whitespace.
pub proof fn lemma_content_is_unchanged<T: Symbol>(s: Seq<T>)
    requires
        forall|i: int| 0 <= i < s.len() ==> !is_whitespace(#[trigger] s[i]),
    ensures
        sifted(s) == s,
        sifted_preserving_newlines(s) == s,
{
    lemma_scanned_content(Seq::<T>::empty(), s);
    assert(Seq::<T>::empty() + s =~= s);
    lemma_blank_prefix_len_is(s, 0);
    assert(trimmed_start(s) =~= s);
    lemma_first_break_is(s, s.len() as int);
}

/// A text made of multi-byte characters only, that is of characters from
/// `U+0080` on, is left as it is by both ways of sifting.
pub proof fn lemma_multi_byte_text_is_unchanged(s: Seq<char>)
    requires
        forall|i: int| 0 <= i < s.len() ==> (#[trigger] s[i]) as u32 >= 0x80,
    ensures
        sifted(s) == s,
        sifted_preserving_newlines(s) == s,
{
    assert forall|i: int| 0 <= i < s.len() implies !is_whitespace(#[trigger] s[i]) by {
        assert(s[i] as u32 >= 0x80);
    }
    lemma_content_is_unchanged(s);
}

/// A text of whitespace only is sifted to the empty text, by both ways of
/// sifting. So is the empty text.
pub proof fn lemma_blank_gives_empty<T: Symbol>(s: Seq<T>)
    requires
        forall|i: int| 0 <= i < s.len() ==> is_whitespace(#[trigger] s[i]),
    ensures
        sifted(s).len() == 0,
        sifted_preserving_newlines(s).len() == 0,
{
    lemma_scanned_blank(s);
    lemma_blank_prefix_len_is(s, s.len() as int);
    assert(trimmed_start(s).len() == 0);
}

/// A line as sifting leaves it: collapsed, without a line feed, and without
/// whitespace at either end.
spec fn is_sifted_line<T: Symbol>(line: Seq<T>) -> bool {
    &&& is_collapsed(line)
    &&& forall|i: int| 0 <= i < line.len() ==> !is_line_feed(#[trigger] line[i])
    &&& line.len() > 0 ==> !is_whitespace(line.first()) && !is_whitespace(line.last())
}

/// Scanning brings no line feed into a text that has none.
proof fn lemma_scanned_has_no_break<T: Symbol>(s: Seq<T>)
    requires
        forall|i: int| 0 <= i < s.len() ==> !is_line_feed(#[trigger] s[i]),
    ensures
        forall|i: int| 0 <= i < scanned(s).len() ==> !is_line_feed(#[trigger] scanned(s)[i]),
    decreases s.len(),
{
    if s.len() > 0 {
        let head = s.drop_last();
        assert forall|i: int| 0 <= i < head.len() implies !is_line_feed(#[trigger] head[i]) by {
            assert(head[i] == s[i]);
        }
        lemma_scanned_has_no_break(head);
        let kept = scanned(head);
        let out = scanned(s);
        assert forall|i: int| 0 <= i < out.len() implies !is_line_feed(#[trigger] out[i]) by {
            if i < kept.len() {
                assert(out[i] == kept[i]);
            } else {
                assert(out[i] == s[s.len() - 1]);
            }
        }
    }
}

/// A line without a line feed is sifted to a sifted line.
proof fn lemma_sifted_line<T: Symbol>(line: Seq<T>)
    requires
        forall|i: int| 0 <= i < line.len() ==> !is_line_feed(#[trigger] line[i]),
    ensures
        is_sifted_line(sifted(line)),
{
    lemma_sifted_shape(line);
    lemma_scanned_has_no_break(line);
    let out = scanned(line);
    assert forall|i: int| 0 <= i < sifted(line).len() implies !is_line_feed(
        #[trigger] sifted(line)[i],
    ) by {
        assert(sifted(line)[i] == out[i]);
    }
}

/// Both ways of sifting leave a sifted line as it is.
proof fn lemma_sifted_line_is_fixed<T: Symbol>(line: Seq<T>)
    requires
        is_sifted_line(line),
    ensures
        sifted(line) == line,
        sifted_preserving_newlines(line) == line,
{
    lemma_collapsed_is_fixed(line);
    lemma_blank_prefix_len_is(line, 0);
    assert(trimmed_start(line) =~= line);
    lemma_first_break_is(line, line.len() as int);
}

/// A sifted line, the line break that ended it and a text that sifting line
/// by line leaves as it is make a text that it leaves as it is.
proof fn lemma_line_then_rest<T: Symbol>(line: Seq<T>, line_feed: T, rest: Seq<T>)
    requires
        line.len() > 0,
        !is_whitespace(line[0]),
        forall|i: int| 0 <= i < line.len() ==> !is_line_feed(#[trigger] line[i]),
        is_line_feed(line_feed),
        rest.len() > 0,
        sifted_preserving_newlines(rest) == rest,
    ensures
        sifted_preserving_newlines(sifted(line) + line_break(line, line_feed) + rest) == sifted(
            line,
        ) + line_break(line, line_feed) + rest,
{
    let l = sifted(line);
    let b = line_break(line, line_feed);
    let all = l + b + rest;
    lemma_sifted_of_content(line);
    lemma_sifted_line(line);
    lemma_sifted_line_is_fixed(l);
    lemma_blank_prefix_len_is(all, 0);
    assert(trimmed_start(all) =~= all);
    let n = l.len() + b.len() - 1;
    assert forall|i: int| 0 <= i < n implies !is_line_feed(#[trigger] all[i]) by {
        if i < l.len() {
            assert(all[i] == l[i]);
        } else {
            assert(all[i] == b[0]);
        }
    }
    assert(all[n] == line_feed);
    lemma_first_break_is(all, n);
    let again = all.take(n);
    if b.len() == 2 {
        let c = line.last();
        assert(again =~= l.push(c));
        lemma_scanned_push(l, c);
        assert(l.push(c).drop_last() =~= l);
        assert(sifted(again) == l);
    } else {
        assert(again =~= l);
    }
    assert(line_break(again, all[n]) =~= b);
    assert(all.skip(n + 1) =~= rest);
}

/// Sifting line by line twice is sifting line by line once.
pub proof fn lemma_sifted_preserving_newlines_is_idempotent<T: Symbol>(s: Seq<T>)
    ensures
        sifted_preserving_newlines(sifted_preserving_newlines(s)) == sifted_preserving_newlines(
            s,
        ),
    decreases s.len(),
{
    let body = trimmed_start(s);
    let n = first_break(body) as int;
    lemma_blank_prefix_len(s);
    lemma_first_break(body);
    if n >= body.len() {
        lemma_sifted_line(body);
        lemma_sifted_line_is_fixed(sifted(body));
    } else {
        let line = body.take(n);
        let rest = body.skip(n + 1);
        assert forall|i: int| 0 <= i < line.len() implies !is_line_feed(#[trigger] line[i]) by {
            assert(line[i] == body[i]);
        }
        lemma_sifted_preserving_newlines_is_idempotent(rest);
        if sifted_preserving_newlines(rest).len() == 0 {
            lemma_sifted_line(line);
            lemma_sifted_line_is_fixed(sifted(line));
        } else {
            lemma_line_then_rest(line, body[n], sifted_preserving_newlines(rest));
        }
    }
}

/// The text sifted line by line neither starts nor ends with whitespace.
pub proof fn lemma_sifted_preserving_newlines_has_no_outer_whitespace<T: Symbol>(s: Seq<T>)
    ensures
        sifted_preserving_newlines(s).len() > 0 ==> !is_whitespace(
            sifted_preserving_newlines(s).first(),
        ) && !is_whitespace(sifted_preserving_newlines(s).last()),
    decreases s.len(),
{
    let body = trimmed_start(s);
    let n = first_break(body) as int;
    lemma_blank_prefix_len(s);
    lemma_first_break(body);
    if n >= body.len() {
        lemma_sifted_shape(body);
    } else {
        let line = body.take(n);
        let rest = body.skip(n + 1);
        lemma_sifted_of_content(line);
        lemma_sifted_shape(line);
        lemma_sifted_preserving_newlines_has_no_outer_whitespace(rest);
        let out = sifted_preserving_newlines(s);
        let tail = sifted_preserving_newlines(rest);
        if tail.len() > 0 {
            assert(out.first() == sifted(line).first());
            assert(out.last() == tail.last());
        }
    }
}

/// In the text sifted line by line two symbols of whitespace stand side by
/// side only as a line break: a carriage return and a line feed.
pub proof fn lemma_sifted_preserving_newlines_has_no_whitespace_runs<T: Symbol>(s: Seq<T>)
    ensures
        forall|i: int|
            0 <= i < sifted_preserving_newlines(s).len() - 1 && is_whitespace(
                #[trigger] sifted_preserving_newlines(s)[i],
            ) && is_whitespace(sifted_preserving_newlines(s)[i + 1]) ==> is_carriage_return(
                sifted_preserving_newlines(s)[i],
            ) && is_line_feed(sifted_preserving_newlines(s)[i + 1]),
    decreases s.len(),
{
    let out = sifted_preserving_newlines(s);
    let body = trimmed_start(s);
    let n = first_break(body) as int;
    lemma_blank_prefix_len(s);
    lemma_first_break(body);
    if n >= body.len() {
        lemma_sifted_has_no_whitespace_runs(body);
    } else {
        let line = body.take(n);
        let rest = body.skip(n + 1);
        let l = sifted(line);
        let b = line_break(line, body[n]);
        let tail = sifted_preserving_newlines(rest);
        lemma_sifted_of_content(line);
        lemma_sifted_shape(line);
        lemma_sifted_preserving_newlines_has_no_whitespace_runs(rest);
        lemma_sifted_preserving_newlines_has_no_outer_whitespace(rest);
        let from = l.len() + b.len();
        assert forall|i: int|
            0 <= i < out.len() - 1 && is_whitespace(#[trigger] out[i]) && is_whitespace(
                out[i + 1],
            ) implies is_carriage_return(out[i]) && is_line_feed(out[i + 1]) by {
            if i + 1 < l.len() {
                lemma_collapsed_at(l, i + 1);
            } else if i + 1 == l.len() {
                assert(out[i] == l.last());
            } else if i + 1 < from {
                assert(out[i] == b[0] && out[i + 1] == b[1]);
            } else if i + 1 == from {
                assert(out[i + 1] == tail.first());
            } else {
                assert(out[i] == tail[i - from]);
                assert(out[i + 1] == tail[i - from + 1]);
            }
        }
    }
}

/// Sifting line by line removes whitespace only: the content of the sifted
/// text is the content of the text, symbol for symbol and in the same order.
pub proof fn lemma_sifted_preserving_newlines_keeps_content<T: Symbol>(s: Seq<T>)
    ensures
        sifted_preserving_newlines(s).filter(is_content()) == s.filter(is_content()),
    decreases s.len(),
{
    let p = is_content::<T>();
    let k = blank_prefix_len(s) as int;
    let body = trimmed_start(s);
    let n = first_break(body) as int;
    lemma_blank_prefix_len(s);
    lemma_first_break(body);
    let blank = s.take(k);
    assert(blank + body =~= s);
    Seq::filter_distributes_over_add(blank, body, p);
    assert(blank.filter(p) =~= Seq::<T>::empty()) by {
        lemma_blank_gives_empty(blank);
        lemma_sifted_keeps_content(blank);
        lemma_empty_has_no_content(sifted(blank));
    }
    if n >= body.len() {
        lemma_sifted_keeps_content(body);
    } else {
        let line = body.take(n);
        let feed = seq![body[n]];
        let rest = body.skip(n + 1);
        let l = sifted(line);
        let b = line_break(line, body[n]);
        let tail = sifted_preserving_newlines(rest);
        assert(line + feed + rest =~= body);
        Seq::filter_distributes_over_add(line + feed, rest, p);
        Seq::filter_distributes_over_add(line, feed, p);
        assert(feed.filter(p) =~= Seq::<T>::empty()) by {
            lemma_blank_gives_empty(feed);
            lemma_sifted_keeps_content(feed);
            lemma_empty_has_no_content(sifted(feed));
        }
        assert(b.filter(p) =~= Seq::<T>::empty()) by {
            lemma_blank_gives_empty(b);
            lemma_sifted_keeps_content(b);
            lemma_empty_has_no_content(sifted(b));
        }
        lemma_sifted_keeps_content(line);
        lemma_sifted_preserving_newlines_keeps_content(rest);
        lemma_empty_has_no_content(tail);
        Seq::filter_distributes_over_add(l + b, tail, p);
        Seq::filter_distributes_over_add(l, b, p);
        if tail.len() == 0 {
            assert(l + b + tail =~= l + b);
        }
    }
}

/// What scanning leaves is not longer than the text; and where the text
/// ends with whitespace, the sifted text is shorter than the text.
proof fn lemma_scanned_len<T: Symbol>(s: Seq<T>)
    ensures
        scanned(s).len() <= s.len(),
        s.len() > 0 && is_whitespace(s.last()) ==> sifted(s).len() < s.len(),
    decreases s.len(),
{
    if s.len() > 0 {
        lemma_scanned_len(s.drop_last());
    }
}

/// The sifted text is not longer than the text, so a buffer of the length
/// of the text holds it.
pub proof fn lemma_sifted_is_not_longer<T: Symbol>(s: Seq<T>)
    ensures
        sifted(s).len() <= s.len(),
{
    lemma_scanned_len(s);
}

/// The text sifted line by line is not longer than the text.
pub proof fn lemma_sifted_preserving_newlines_is_not_longer<T: Symbol>(s: Seq<T>)
    ensures
        sifted_preserving_newlines(s).len() <= s.len(),
    decreases s.len(),
{
    let body = trimmed_start(s);
    let n = first_break(body) as int;
    lemma_blank_prefix_len(s);
    lemma_first_break(body);
    if n >= body.len() {
        lemma_scanned_len(body);
    } else {
        let line = body.take(n);
        lemma_scanned_len(line);
        lemma_sifted_preserving_newlines_is_not_longer(body.skip(n + 1));
    }
}

/// The empty text has no content.
proof fn lemma_empty_has_no_content<T: Symbol>(s: Seq<T>)
    ensures
        s.len() == 0 ==> s.filter(is_content()).len() == 0,
{
    reveal(Seq::filter);
}

} // verus!
