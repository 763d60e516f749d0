//! What sifting means, stated once for any text whose symbols can be
//! classified: a sequence of UTF-8 bytes, or a sequence of `char`s.
//!
//! Sifting is described by what it leaves: a symbol of the input stays or
//! goes, and whether it stays depends only on the symbol and on what has
//! stayed before it.

use vstd::prelude::*;
use crate::character::{is_carriage_return, is_line_feed, is_whitespace, Symbol};
use crate::lemmas::lemma_blank_prefix_len;

verus! {

/// Whether `x` stays when `out` is what has stayed of the text before it.
///
/// Content always stays. Whitespace stays after content, so a run of
/// whitespace is cut down to its first symbol; and the first line feed that
/// meets a carriage return as the last symbol of `out` stays too, so that the
/// two form one line break. Whitespace at the very start goes.
pub open spec fn keeps<T: Symbol>(out: Seq<T>, x: T) -> bool {
    ||| !is_whitespace(x)
    ||| out.len() > 0 && !is_whitespace(out.last())
    ||| out.len() > 0 && is_carriage_return(out.last()) && is_line_feed(x)
}

/// The text with its whitespace runs collapsed and its leading whitespace
/// removed; whitespace at the end is still there, collapsed.
pub open spec fn scanned<T: Symbol>(s: Seq<T>) -> Seq<T>
    decreases s.len(),
{
    if s.len() == 0 {
        s
    } else {
        let out = scanned(s.drop_last());
        if keeps(out, s.last()) {
            out.push(s.last())
        } else {
            out
        }
    }
}

/// Whether `out` ends with a carriage return followed by a line feed.
pub open spec fn ends_with_break<T: Symbol>(out: Seq<T>) -> bool {
    &&& out.len() >= 2
    &&& is_carriage_return(out[out.len() - 2])
    &&& is_line_feed(out.last())
}

/// A collapsed text without the whitespace at its end: a line break of two
/// symbols, or one symbol of whitespace.
pub open spec fn trimmed_end<T: Symbol>(out: Seq<T>) -> Seq<T> {
    if ends_with_break(out) {
        out.take(out.len() - 2)
    } else if out.len() > 0 && is_whitespace(out.last()) {
        out.drop_last()
    } else {
        out
    }
}

/// The sifted text: every run of whitespace is collapsed to its first symbol,
/// or to a carriage return and a line feed where the run starts with a carriage
/// return and holds a line feed; whitespace at the start and at the end is
/// removed.
pub open spec fn sifted<T: Symbol>(s: Seq<T>) -> Seq<T> {
    trimmed_end(scanned(s))
}

/// The number of whitespace symbols that `s` starts with.
pub open spec fn blank_prefix_len<T: Symbol>(s: Seq<T>) -> nat
    decreases s.len(),
{
    if s.len() == 0 || !is_whitespace(s[0]) {
        0
    } else {
        1 + blank_prefix_len(s.drop_first())
    }
}

/// The index of the first line feed in `s`, or the length of `s` where it
/// holds none.
pub open spec fn first_break<T: Symbol>(s: Seq<T>) -> nat
    decreases s.len(),
{
    if s.len() == 0 || is_line_feed(s[0]) {
        0
    } else {
        1 + first_break(s.drop_first())
    }
}

/// The line break that ends `line`, `line_feed` being the line feed that
/// follows it in the text: the carriage return before it belongs to the
/// break.
pub open spec fn line_break<T: Symbol>(line: Seq<T>, line_feed: T) -> Seq<T> {
    if line.len() > 0 && is_carriage_return(line.last()) {
        seq![line.last(), line_feed]
    } else {
        seq![line_feed]
    }
}

/// The text without the whitespace at its start.
pub open spec fn trimmed_start<T: Symbol>(s: Seq<T>) -> Seq<T> {
    s.skip(blank_prefix_len(s) as int)
}

/// The text sifted line by line. Each line is sifted by itself; lines that
/// come out empty are dropped; the lines that are left are joined by the line
/// break that ended each of them in the text, a line feed with the carriage
/// return before it if there is one.
pub open spec fn sifted_preserving_newlines<T: Symbol>(s: Seq<T>) -> Seq<T>
    decreases s.len(),
{
    let body = trimmed_start(s);
    let n = first_break(body) as int;
    if n >= body.len() {
        sifted(body)
    } else {
        proof {
            lemma_blank_prefix_len(s);
        }
        let line = body.take(n);
        let rest = sifted_preserving_newlines(body.skip(n + 1));
        if rest.len() == 0 {
            sifted(line)
        } else {
            sifted(line) + line_break(line, body[n]) + rest
        }
    }
}

/// Each line with content, sifted and followed by its line break; the last
/// line has none where the text ends without one.
pub open spec fn sifted_lines<T: Symbol>(s: Seq<T>) -> Seq<T>
    decreases s.len(),
{
    let body = trimmed_start(s);
    let n = first_break(body) as int;
    if n >= body.len() {
        sifted(body)
    } else {
        proof {
            lemma_blank_prefix_len(s);
        }
        let line = body.take(n);
        sifted(line) + line_break(line, body[n]) + sifted_lines(body.skip(n + 1))
    }
}

/// The output without the line break at its end, if it ends with one: a
/// carriage return and a line feed, or a line feed alone.
pub open spec fn without_last_break<T: Symbol>(out: Seq<T>) -> Seq<T> {
    if ends_with_break(out) {
        out.take(out.len() - 2)
    } else if out.len() > 0 && is_line_feed(out.last()) {
        out.drop_last()
    } else {
        out
    }
}

/// Whether every symbol of `out` would stay after the symbols before it:
/// sifting has nothing to collapse in such a text.
pub open spec fn is_collapsed<T: Symbol>(out: Seq<T>) -> bool {
    forall|i: int| 0 <= i < out.len() ==> keeps(#[trigger] out.take(i), out[i])
}

} // verus!
