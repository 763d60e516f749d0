//! Lemmas on the definitions of sifting, for the proofs of the functions
//! and of the laws.

use vstd::prelude::*;
use crate::character::{is_carriage_return, is_line_feed, is_whitespace, Symbol};
use crate::model::{
    blank_prefix_len, ends_with_break, first_break, is_collapsed, keeps, line_break, scanned,
    sifted, sifted_lines, sifted_preserving_newlines, trimmed_start, without_last_break,
};

verus! {

/// The blank prefix lies within the text, holds whitespace only, and ends
/// before content or with the text.
pub proof fn lemma_blank_prefix_len<T: Symbol>(s: Seq<T>)
    ensures
        blank_prefix_len(s) <= s.len(),
        forall|i: int| 0 <= i < blank_prefix_len(s) ==> is_whitespace(#[trigger] s[i]),
        blank_prefix_len(s) < s.len() ==> !is_whitespace(s[blank_prefix_len(s) as int]),
    decreases s.len(),
{
    if s.len() == 0 || !is_whitespace(s[0]) {
    } else {
        let t = s.drop_first();
        lemma_blank_prefix_len(t);
        assert forall|i: int| 0 <= i < blank_prefix_len(s) implies is_whitespace(
            #[trigger] s[i],
        ) by {
            if i > 0 {
                assert(s[i] == t[i - 1]);
            }
        }
    }
}

/// The blank prefix is the only prefix of whitespace that content, or the
/// end of the text, follows.
pub proof fn lemma_blank_prefix_len_is<T: Symbol>(s: Seq<T>, k: int)
    requires
        0 <= k <= s.len(),
        forall|i: int| 0 <= i < k ==> is_whitespace(#[trigger] s[i]),
        k < s.len() ==> !is_whitespace(s[k]),
    ensures
        blank_prefix_len(s) == k,
    decreases s.len(),
{
    if k > 0 {
        let t = s.drop_first();
        assert(is_whitespace(s[0]));
        assert forall|i: int| 0 <= i < k - 1 implies is_whitespace(#[trigger] t[i]) by {
            assert(t[i] == s[i + 1]);
        }
        lemma_blank_prefix_len_is(t, k - 1);
    }
}

/// The first line feed lies at `first_break`, if there is one at all.
pub proof fn lemma_first_break<T: Symbol>(s: Seq<T>)
    ensures
        first_break(s) <= s.len(),
        forall|i: int| 0 <= i < first_break(s) ==> !is_line_feed(#[trigger] s[i]),
        first_break(s) < s.len() ==> is_line_feed(s[first_break(s) as int]),
    decreases s.len(),
{
    if s.len() == 0 || is_line_feed(s[0]) {
    } else {
        let t = s.drop_first();
        lemma_first_break(t);
        assert forall|i: int| 0 <= i < first_break(s) implies !is_line_feed(#[trigger] s[i]) by {
            if i > 0 {
                assert(s[i] == t[i - 1]);
            }
        }
    }
}

/// `first_break` is the only index with no line feed before it and a line
/// feed, or the end of the text, at it.
pub proof fn lemma_first_break_is<T: Symbol>(s: Seq<T>, n: int)
    requires
        0 <= n <= s.len(),
        forall|i: int| 0 <= i < n ==> !is_line_feed(#[trigger] s[i]),
        n < s.len() ==> is_line_feed(s[n]),
    ensures
        first_break(s) == n,
    decreases s.len(),
{
    if n > 0 {
        let t = s.drop_first();
        assert(!is_line_feed(s[0]));
        assert forall|i: int| 0 <= i < n - 1 implies !is_line_feed(#[trigger] t[i]) by {
            assert(t[i] == s[i + 1]);
        }
        lemma_first_break_is(t, n - 1);
    }
}

/// One more symbol at the end of the text stays or goes by `keeps`.
pub proof fn lemma_scanned_push<T: Symbol>(s: Seq<T>, x: T)
    ensures
        scanned(s.push(x)) == if keeps(scanned(s), x) {
            scanned(s).push(x)
        } else {
            scanned(s)
        },
{
    assert(s.push(x).drop_last() =~= s);
}

/// Content that is appended stays as it is.
pub proof fn lemma_scanned_content<T: Symbol>(s: Seq<T>, t: Seq<T>)
    requires
        forall|i: int| 0 <= i < t.len() ==> !is_whitespace(#[trigger] t[i]),
    ensures
        scanned(s + t) == scanned(s) + t,
    decreases t.len(),
{
    if t.len() == 0 {
        assert(s + t =~= s);
        assert(scanned(s) + t =~= scanned(s));
    } else {
        let u = t.drop_last();
        assert forall|i: int| 0 <= i < u.len() implies !is_whitespace(#[trigger] u[i]) by {
            assert(u[i] == t[i]);
        }
        lemma_scanned_content(s, u);
        assert(s + t =~= (s + u).push(t.last()));
        lemma_scanned_push(s + u, t.last());
        assert(!is_whitespace(t[t.len() - 1]));
        assert((scanned(s) + u).push(t.last()) =~= scanned(s) + t);
    }
}

/// Whitespace at the start of the text leaves nothing.
pub proof fn lemma_scanned_blank<T: Symbol>(s: Seq<T>)
    requires
        forall|i: int| 0 <= i < s.len() ==> is_whitespace(#[trigger] s[i]),
    ensures
        scanned(s).len() == 0,
    decreases s.len(),
{
    if s.len() > 0 {
        let u = s.drop_last();
        assert forall|i: int| 0 <= i < u.len() implies is_whitespace(#[trigger] u[i]) by {
            assert(u[i] == s[i]);
        }
        lemma_scanned_blank(u);
        assert(is_whitespace(s[s.len() - 1]));
    }
}

/// What scanning leaves is collapsed.
pub proof fn lemma_scanned_is_collapsed<T: Symbol>(s: Seq<T>)
    ensures
        is_collapsed(scanned(s)),
    decreases s.len(),
{
    if s.len() > 0 {
        let out = scanned(s.drop_last());
        lemma_scanned_is_collapsed(s.drop_last());
        if keeps(out, s.last()) {
            let next = out.push(s.last());
            assert forall|i: int| 0 <= i < next.len() implies keeps(
                #[trigger] next.take(i),
                next[i],
            ) by {
                if i < out.len() {
                    assert(next.take(i) =~= out.take(i));
                } else {
                    assert(next.take(i) =~= out);
                }
            }
        }
    }
}

/// A prefix of a collapsed text is collapsed.
pub proof fn lemma_collapsed_prefix<T: Symbol>(out: Seq<T>, n: int)
    requires
        is_collapsed(out),
        0 <= n <= out.len(),
    ensures
        is_collapsed(out.take(n)),
{
    let prefix = out.take(n);
    assert forall|i: int| 0 <= i < prefix.len() implies keeps(
        #[trigger] prefix.take(i),
        prefix[i],
    ) by {
        assert(prefix.take(i) =~= out.take(i));
    }
}

/// Scanning leaves a collapsed text as it is.
pub proof fn lemma_collapsed_is_fixed<T: Symbol>(out: Seq<T>)
    requires
        is_collapsed(out),
    ensures
        scanned(out) == out,
    decreases out.len(),
{
    if out.len() > 0 {
        lemma_collapsed_prefix(out, out.len() - 1);
        lemma_collapsed_is_fixed(out.drop_last());
        assert(out.take(out.len() - 1) =~= out.drop_last());
        assert(out.drop_last().push(out.last()) =~= out);
    }
}

/// In a collapsed text whitespace follows content, but for the line feed of
/// a line break, whose carriage return follows content.
pub proof fn lemma_collapsed_at<T: Symbol>(out: Seq<T>, i: int)
    requires
        is_collapsed(out),
        0 <= i < out.len(),
        is_whitespace(out[i]),
    ensures
        i > 0,
        !is_whitespace(out[i - 1]) || (is_carriage_return(out[i - 1]) && is_line_feed(out[i])),
        is_carriage_return(out[i - 1]) ==> i > 1 && !is_whitespace(out[i - 2]),
{
    assert(keeps(out.take(i), out[i]));
    assert(out.take(i).last() == out[i - 1]);
    if is_carriage_return(out[i - 1]) {
        assert(keeps(out.take(i - 1), out[i - 1]));
        assert(out.take(i - 1).last() == out[i - 2]);
    }
}

/// The sifted text is collapsed, and it neither starts nor ends with
/// whitespace.
pub proof fn lemma_sifted_shape<T: Symbol>(s: Seq<T>)
    ensures
        is_collapsed(sifted(s)),
        sifted(s).len() > 0 ==> !is_whitespace(sifted(s).first()) && !is_whitespace(
            sifted(s).last(),
        ),
{
    let out = scanned(s);
    lemma_scanned_is_collapsed(s);
    let n = out.len() as int;
    if ends_with_break(out) {
        lemma_collapsed_prefix(out, n - 2);
        lemma_collapsed_at(out, n - 1);
        lemma_collapsed_at(out, n - 2);
    } else if n > 0 && is_whitespace(out.last()) {
        lemma_collapsed_prefix(out, n - 1);
        lemma_collapsed_at(out, n - 1);
        assert(out.take(n - 1) =~= out.drop_last());
    }
    if sifted(s).len() > 0 {
        assert(keeps(out.take(0), out[0]));
    }
}

/// A text that starts with content keeps its first symbol when it is
/// sifted.
pub proof fn lemma_sifted_of_content<T: Symbol>(s: Seq<T>)
    requires
        s.len() > 0,
        !is_whitespace(s[0]),
    ensures
        scanned(s).len() > 0,
        scanned(s).first() == s[0],
        sifted(s).len() > 0,
        sifted(s).first() == s[0],
    decreases s.len(),
{
    let out = scanned(s);
    assert(out.len() > 0 && out.first() == s[0]) by {
        if s.len() > 1 {
            lemma_sifted_of_content(s.drop_last());
        } else {
            assert(scanned(s.drop_last()).len() == 0);
        }
    }
    lemma_scanned_is_collapsed(s);
    if ends_with_break(out) {
        assert(out.len() > 2);
    } else if is_whitespace(out.last()) {
        assert(out.len() > 1);
    }
}

/// What sifting line by line leaves starts with content.
pub proof fn lemma_sifted_lines_first<T: Symbol>(s: Seq<T>)
    ensures
        sifted_lines(s).len() > 0 ==> !is_whitespace(sifted_lines(s).first()),
{
    let body = trimmed_start(s);
    let n = first_break(body) as int;
    lemma_blank_prefix_len(s);
    if n >= body.len() {
        lemma_sifted_shape(body);
    } else {
        lemma_first_break(body);
        let line = body.take(n);
        lemma_sifted_of_content(line);
        lemma_sifted_shape(line);
        assert(sifted_lines(s).first() == sifted(line).first());
    }
}

/// Without the line break at its end, the text of sifted lines is the text
/// of sifted lines joined by their line breaks.
pub proof fn lemma_without_last_break<T: Symbol>(s: Seq<T>)
    ensures
        without_last_break(sifted_lines(s)) == sifted_preserving_newlines(s),
    decreases s.len(),
{
    let body = trimmed_start(s);
    let n = first_break(body) as int;
    lemma_blank_prefix_len(s);
    if n >= body.len() {
        lemma_sifted_shape(body);
    } else {
        lemma_first_break(body);
        let line = body.take(n);
        let rest = body.skip(n + 1);
        lemma_sifted_of_content(line);
        lemma_sifted_shape(line);
        lemma_without_last_break(rest);
        lemma_sifted_lines_first(rest);
        let l = sifted(line);
        let b = line_break(line, body[n]);
        let r = sifted_lines(rest);
        let all = l + b + r;
        if r.len() == 0 {
            assert(all =~= l + b);
            assert(without_last_break(all) =~= l);
        } else {
            let m = without_last_break(r);
            if r.len() >= 2 {
                assert(all[all.len() - 2] == r[r.len() - 2]);
            }
            assert(all.last() == r.last());
            assert(r.first() == r[0]);
            assert(without_last_break(all) =~= l + b + m);
        }
    }
}

} // verus!
