//! Sources put one behind the other.
use vstd::prelude::*;

use crate::parser::brace_match::{
    brace_depth, char_at, closes_brace, closing_brace, code_mask, first_marked, is_code, lex_at,
    lex_step, marked_char,
};
use crate::parser::signatures::{
    comment_start, header_of, header_start, signatures_from, signatures_of,
};
use crate::text::{
    drop_carriage_return, find_char, first_from, is_char_at, is_space, lemma_first_agrees,
    lemma_first_extends, lemma_first_found, lemma_first_skip, lemma_skip_space_bounds, lines, trim,
    trim_end, trim_start, trimmed_len,
};

verus! {

// Headers -----------------------------------------------------------------

/// `s` is made of white space only.
pub open spec fn is_blank(s: Seq<char>) -> bool {
    forall|i: int| 0 <= i < s.len() ==> is_space(#[trigger] s[i])
}

/// What is trimmed away is white space.
proof fn lemma_trimmed_tail(s: Seq<char>, n: int)
    requires
        0 <= n <= s.len(),
    ensures
        0 <= trimmed_len(s, n) <= n,
        forall|i: int| trimmed_len(s, n) <= i < n ==> is_space(#[trigger] s[i]),
    decreases n,
{
    if 0 < n && is_space(s[n - 1]) {
        lemma_trimmed_tail(s, n - 1);
    }
}

/// White space is trimmed away.
proof fn lemma_blank_trims(s: Seq<char>)
    requires
        is_blank(s),
    ensures
        trim_end(s).len() == 0,
        trim(s).len() == 0,
{
    lemma_blank_trimmed_len(s, s.len() as int);
    lemma_skip_space_bounds(s, 0);
    assert(trim_start(s).len() == 0);
}

/// Nothing is left of white space.
proof fn lemma_blank_trimmed_len(s: Seq<char>, n: int)
    requires
        is_blank(s),
        0 <= n <= s.len(),
    ensures
        trimmed_len(s, n) == 0,
    decreases n,
{
    if n > 0 {
        lemma_blank_trimmed_len(s, n - 1);
    }
}

/// What stands in front does not change how an end is trimmed.
proof fn lemma_trimmed_behind(u: Seq<char>, x: Seq<char>, n: int)
    requires
        0 <= n <= x.len(),
        trimmed_len(x, n) > 0,
    ensures
        trimmed_len(u + x, u.len() + n) == u.len() + trimmed_len(x, n),
    decreases n,
{
    assert((u + x)[u.len() + n - 1] == x[n - 1]);
    if is_space(x[n - 1]) {
        lemma_trimmed_behind(u, x, n - 1);
    }
}

/// The lines of a text behind a line feed are those of the text.
proof fn lemma_lines_behind(u: Seq<char>, y: Seq<char>)
    ensures
        lines(u + "\n"@ + y) == lines(u + "\n"@) + lines(y),
        lines(u + "\n"@).len() > 0,
    decreases u.len(),
{
    reveal_strlit("\n");
    let s = u + "\n"@ + y;
    let h = u + "\n"@;
    let n = u.len() as int;
    let p = is_char_at(s, '\n');
    let q = is_char_at(h, '\n');
    assert(s[n] == '\n' && h[n] == '\n');
    assert(q(n));
    lemma_first_found(q, 0, n + 1);
    let i = first_from(q, 0, n + 1)->0;
    assert forall|j: int| 0 <= j < n + 1 implies #[trigger] q(j) == p(j) by {
        assert(s[j] == h[j]);
    }
    lemma_first_agrees(q, p, 0, n + 1);
    lemma_first_extends(p, 0, n + 1, s.len() as int);
    assert(s.take(i) =~= h.take(i));
    if i == n {
        assert(s.skip(n + 1) =~= y);
        assert(h.skip(n + 1) =~= Seq::<char>::empty());
        assert(lines(Seq::<char>::empty()) =~= Seq::<Seq<char>>::empty());
        assert(lines(h) =~= seq![drop_carriage_return(h.take(i))]);
    } else {
        let rest = u.skip(i + 1);
        lemma_lines_behind(rest, y);
        assert(s.skip(i + 1) =~= rest + "\n"@ + y);
        assert(h.skip(i + 1) =~= rest + "\n"@);
        let first = seq![drop_carriage_return(s.take(i))];
        assert(first + (lines(rest + "\n"@) + lines(y)) =~= first + lines(rest + "\n"@) + lines(y));
    }
}

/// The lines of white space are blank.
proof fn lemma_blank_lines(u: Seq<char>)
    requires
        is_blank(u),
    ensures
        forall|k: int| 0 <= k < lines(u).len() ==> is_blank(#[trigger] lines(u)[k]),
    decreases u.len(),
{
    if u.len() > 0 {
        let n = u.len() as int;
        lemma_first_found(is_char_at(u, '\n'), 0, n);
        match find_char(u, '\n') {
            None => {
                assert(lines(u) =~= seq![u]);
            },
            Some(i) => {
                let rest = u.skip(i + 1);
                assert forall|j: int| 0 <= j < rest.len() implies is_space(#[trigger] rest[j]) by {
                    assert(rest[j] == u[i + 1 + j]);
                }
                lemma_blank_lines(rest);
                let line = drop_carriage_return(u.take(i));
                assert forall|j: int| 0 <= j < line.len() implies is_space(#[trigger] line[j]) by {
                    assert(line[j] == u[j]);
                }
                let all = lines(u);
                assert(all == seq![line] + lines(rest));
                assert forall|k: int| 0 <= k < all.len() implies is_blank(#[trigger] all[k]) by {
                    if k > 0 {
                        assert(all[k] == lines(rest)[k - 1]);
                    }
                }
            },
        }
    }
}

/// Blank lines in front take no part in a header, nor in the comment above it.
proof fn lemma_header_behind_blank(above: Seq<Seq<char>>, all: Seq<Seq<char>>, n: int)
    requires
        above.len() > 0,
        forall|k: int| 0 <= k < above.len() ==> is_blank(#[trigger] above[k]),
        0 <= n <= all.len(),
    ensures
        header_start(above + all, above.len() + n) == above.len() + header_start(all, n),
        comment_start(above + all, above.len() + n) == above.len() + comment_start(all, n),
        0 <= header_start(all, n) <= n,
        0 <= comment_start(all, n) <= n,
    decreases n,
{
    let m = above.len() as int;
    if n > 0 {
        assert((above + all)[m + n - 1] == all[n - 1]);
        lemma_header_behind_blank(above, all, n - 1);
    } else {
        assert((above + all)[m - 1] == above[m - 1]);
        lemma_blank_trims(above[m - 1]);
        reveal_strlit("//");
    }
}

/// White space above a header does not matter to it.
proof fn lemma_header_behind_space(w: Seq<char>, x: Seq<char>)
    requires
        is_blank(w),
    ensures
        header_of(w + "\n"@ + x) == header_of(x),
{
    reveal_strlit("\n");
    let u = w + "\n"@;
    let pre = u + x;
    assert(pre =~= w + "\n"@ + x);
    let n = x.len() as int;
    assert(is_blank(u)) by {
        assert forall|j: int| 0 <= j < u.len() implies is_space(#[trigger] u[j]) by {
            if j < w.len() {
                assert(u[j] == w[j]);
            }
        }
    }
    lemma_trimmed_tail(x, n);
    if trimmed_len(x, n) == 0 {
        assert(is_blank(pre)) by {
            assert forall|j: int| 0 <= j < pre.len() implies is_space(#[trigger] pre[j]) by {
                if j < u.len() {
                    assert(pre[j] == u[j]);
                } else {
                    assert(pre[j] == x[j - u.len()]);
                }
            }
        }
        lemma_blank_trims(pre);
        assert(trim_end(pre) =~= Seq::<char>::empty());
        assert(trim_end(x) =~= Seq::<char>::empty());
    } else {
        lemma_trimmed_behind(u, x, n);
        let y = trim_end(x);
        assert(trim_end(pre) =~= w + "\n"@ + y);
        lemma_lines_behind(w, y);
        lemma_blank_lines(u);
        let above = lines(u);
        let all = lines(y);
        let m = above.len() as int;
        let both = above + all;
        lemma_header_behind_blank(above, all, all.len() as int);
        let h = header_start(all, all.len() as int);
        lemma_header_behind_blank(above, all, h);
        assert(both.skip(m + h) =~= all.skip(h));
        let c = comment_start(all, h);
        assert(both.subrange(m + c, m + h) =~= all.subrange(c, h));
    }
}

// Code --------------------------------------------------------------------

/// A text is scanned alike whether or not a line feed follows it.
proof fn lemma_lex_in_front(a: Seq<char>, b: Seq<char>, i: int)
    requires
        0 <= i <= a.len(),
    ensures
        lex_at(a + "\n"@ + b, i) == lex_at(a, i),
    decreases i,
{
    reveal_strlit("\n");
    let t = a + "\n"@ + b;
    if i > 0 {
        lemma_lex_in_front(a, b, i - 1);
        assert(t[i - 1] == a[i - 1]);
        if i < a.len() {
            assert(t[i] == a[i]);
        } else {
            assert(t[i] == '\n');
        }
    }
}

/// A text behind code is scanned as it is alone.
proof fn lemma_lex_behind(t: Seq<char>, d: int, b: Seq<char>, j: int)
    requires
        0 <= d,
        t.len() == d + b.len(),
        forall|i: int| 0 <= i < b.len() ==> #[trigger] b[i] == t[d + i],
        lex_at(t, d) is Code,
        0 <= j <= b.len(),
    ensures
        lex_at(t, d + j) == lex_at(b, j),
    decreases j,
{
    if j > 0 {
        lemma_lex_behind(t, d, b, j - 1);
        assert(b[j - 1] == t[d + j - 1]);
        if j < b.len() {
            assert(b[j] == t[d + j]);
        }
    }
}

/// White space leaves the scanner in code.
proof fn lemma_space_is_code(s: Seq<char>, e: int, i: int)
    requires
        0 <= e <= i <= s.len(),
        lex_at(s, e) is Code,
        forall|j: int| e <= j < s.len() ==> is_space(#[trigger] s[j]),
    ensures
        lex_at(s, i) is Code,
    decreases i - e,
{
    if e < i {
        lemma_space_is_code(s, e, i - 1);
        assert(is_space(s[i - 1]));
    }
}

/// Counted up to a position and on from there, the depth adds up.
proof fn lemma_depth_adds_up(mask: Seq<bool>, s: Seq<char>, a: int, b: int, c: int)
    requires
        a <= b <= c,
    ensures
        brace_depth(mask, s, a, c) == brace_depth(mask, s, a, b) + brace_depth(mask, s, b, c),
    decreases c - b,
{
    if b < c {
        lemma_depth_adds_up(mask, s, a, b, c - 1);
    }
}

/// Position `j` of `s` has the mark and the character that position `d + j` of `t` has.
spec fn agrees(
    mt: Seq<bool>,
    t: Seq<char>,
    d: int,
    ms: Seq<bool>,
    s: Seq<char>,
    j: int,
) -> bool {
    t[d + j] == s[j] && mt[d + j] == ms[j]
}

/// Where marks and characters agree, so does the depth.
proof fn lemma_depth_agrees(
    mt: Seq<bool>,
    t: Seq<char>,
    d: int,
    ms: Seq<bool>,
    s: Seq<char>,
    open: int,
    end: int,
)
    requires
        forall|j: int| open <= j < end ==> #[trigger] agrees(mt, t, d, ms, s, j),
    ensures
        brace_depth(mt, t, d + open, d + end) == brace_depth(ms, s, open, end),
    decreases end - open,
{
    if open < end {
        lemma_depth_agrees(mt, t, d, ms, s, open, end - 1);
        assert(agrees(mt, t, d, ms, s, end - 1));
    }
}

/// A predicate that holds further on is found further on.
proof fn lemma_first_moves(
    q: spec_fn(int) -> bool,
    p: spec_fn(int) -> bool,
    d: int,
    from: int,
    end: int,
)
    requires
        forall|i: int| from <= i < end ==> #[trigger] q(i) == p(d + i),
    ensures
        match first_from(q, from, end) {
            Some(i) => first_from(p, d + from, d + end) == Some(d + i),
            None => first_from(p, d + from, d + end) is None,
        },
    decreases end - from,
{
    if from < end {
        assert(q(from) == p(d + from));
        lemma_first_moves(q, p, d, from + 1, end);
    }
}

/// Behind code, signatures are found as they are alone.
proof fn lemma_signatures_behind(t: Seq<char>, d: int, b: Seq<char>, j: int)
    requires
        0 <= d,
        t.len() == d + b.len(),
        forall|i: int| 0 <= i < b.len() ==> #[trigger] b[i] == t[d + i],
        lex_at(t, d) is Code,
        0 <= j <= b.len(),
    ensures
        signatures_from(t, d + j) == signatures_from(b, j),
    decreases b.len() - j,
{
    let n = b.len() as int;
    lemma_block_behind(t, d, b, j);
    let q = marked_char(code_mask(b), b, '{');
    lemma_first_found(q, j, n);
    if let Some(open) = first_marked(code_mask(b), b, j, '{') {
        lemma_first_found(closes_brace(code_mask(b), b, open), open, n);
        if let Some(close) = closing_brace(code_mask(b), b, open) {
            lemma_signatures_behind(t, d, b, close + 1);
            assert(t.subrange(d + j, d + open) =~= b.subrange(j, open));
        }
    }
}

/// What is code in a text alone is code in it behind code.
proof fn lemma_marks_behind(t: Seq<char>, d: int, b: Seq<char>, i: int)
    requires
        0 <= d,
        t.len() == d + b.len(),
        forall|i: int| 0 <= i < b.len() ==> #[trigger] b[i] == t[d + i],
        lex_at(t, d) is Code,
        0 <= i < b.len(),
    ensures
        code_mask(t)[d + i] == code_mask(b)[i],
        t[d + i] == b[i],
{
    lemma_lex_behind(t, d, b, i);
    assert(b[i] == t[d + i]);
    if i + 1 < b.len() {
        assert(b[i + 1] == t[d + (i + 1)]);
    }
    assert(char_at(t, d + i + 1) == char_at(b, i + 1));
}

/// The next block of a text is its next block behind code.
proof fn lemma_block_behind(t: Seq<char>, d: int, b: Seq<char>, j: int)
    requires
        0 <= d,
        t.len() == d + b.len(),
        forall|i: int| 0 <= i < b.len() ==> #[trigger] b[i] == t[d + i],
        lex_at(t, d) is Code,
        0 <= j <= b.len(),
    ensures
        match first_marked(code_mask(b), b, j, '{') {
            Some(open) => first_marked(code_mask(t), t, d + j, '{') == Some(d + open) && match
                closing_brace(code_mask(b), b, open) {
                Some(close) => closing_brace(code_mask(t), t, d + open) == Some(d + close),
                None => closing_brace(code_mask(t), t, d + open) is None,
            },
            None => first_marked(code_mask(t), t, d + j, '{') is None,
        },
{
    let mt = code_mask(t);
    let mb = code_mask(b);
    let n = b.len() as int;
    let p = marked_char(mt, t, '{');
    let q = marked_char(mb, b, '{');
    assert forall|i: int| j <= i < n implies #[trigger] q(i) == p(d + i) by {
        lemma_marks_behind(t, d, b, i);
    }
    lemma_first_moves(q, p, d, j, n);
    lemma_first_found(q, j, n);
    if let Some(open) = first_marked(mb, b, j, '{') {
        let cp = closes_brace(mt, t, d + open);
        let cq = closes_brace(mb, b, open);
        assert forall|i: int| open <= i < n implies #[trigger] cq(i) == cp(d + i) by {
            lemma_marks_behind(t, d, b, i);
            assert forall|k: int| open <= k < i + 1 implies #[trigger] agrees(
                mt,
                t,
                d,
                mb,
                b,
                k,
            ) by {
                lemma_marks_behind(t, d, b, k);
            }
            lemma_depth_agrees(mt, t, d, mb, b, open, i + 1);
            assert(d + (i + 1) == d + i + 1);
        }
        lemma_first_moves(cq, cp, d, open, n);
    }
}

// Joined sources ----------------------------------------------------------

/// The braces of a source that are code are properly nested, and balanced.
pub open spec fn braces_are_nested(s: Seq<char>) -> bool {
    &&& forall|i: int| 0 <= i <= s.len() ==> #[trigger] brace_depth(code_mask(s), s, 0, i) >= 0
    &&& brace_depth(code_mask(s), s, 0, s.len() as int) == 0
}

/// Only white space follows position `e` of a source, and before it stands a closing brace that is
/// code, or nothing.
pub open spec fn ends_at(s: Seq<char>, e: int) -> bool {
    &&& 0 <= e <= s.len()
    &&& e == 0 || (s[e - 1] == '}' && is_code(s, e - 1))
    &&& forall|j: int| e <= j < s.len() ==> is_space(#[trigger] s[j])
}

/// A brace that opens in nested code is closed in it.
proof fn lemma_nested_brace_closes(s: Seq<char>, open: int)
    requires
        braces_are_nested(s),
        0 <= open < s.len(),
        code_mask(s)[open],
        s[open] == '{',
        brace_depth(code_mask(s), s, 0, open) == 0,
    ensures
        closing_brace(code_mask(s), s, open) is Some,
{
    let mask = code_mask(s);
    let n = s.len() as int;
    let p = closes_brace(mask, s, open);
    lemma_first_found(p, open, n);
    if closing_brace(mask, s, open) is None {
        lemma_stays_open(s, open, n);
        lemma_depth_adds_up(mask, s, 0, open, n);
    }
}

/// A brace that is not closed stays open.
proof fn lemma_stays_open(s: Seq<char>, open: int, i: int)
    requires
        0 <= open < i <= s.len(),
        code_mask(s)[open],
        s[open] == '{',
        forall|j: int| open <= j < s.len() ==> !#[trigger] closes_brace(code_mask(s), s, open)(j),
    ensures
        brace_depth(code_mask(s), s, open, i) >= 1,
    decreases i - open,
{
    if i == open + 1 {
        assert(brace_depth(code_mask(s), s, open, open) == 0);
    } else {
        lemma_stays_open(s, open, i - 1);
        assert(!closes_brace(code_mask(s), s, open)(i - 1));
    }
}

/// Without an opening brace, nested code has no closing one either.
proof fn lemma_no_brace_left(s: Seq<char>, from: int, i: int)
    requires
        braces_are_nested(s),
        0 <= from <= i <= s.len(),
        brace_depth(code_mask(s), s, 0, from) == 0,
        forall|j: int| from <= j < s.len() ==> !#[trigger] marked_char(code_mask(s), s, '{')(j),
    ensures
        brace_depth(code_mask(s), s, 0, i) == 0,
        forall|j: int| from <= j < i ==> !(code_mask(s)[j] && #[trigger] s[j] == '}'),
    decreases i - from,
{
    if from < i {
        lemma_no_brace_left(s, from, i - 1);
        assert(!marked_char(code_mask(s), s, '{')(i - 1));
        assert(brace_depth(code_mask(s), s, 0, i) >= 0);
    }
}

/// What is code in a text is code in it with a line feed and more behind it.
proof fn lemma_marks_in_front(a: Seq<char>, b: Seq<char>, i: int)
    requires
        0 <= i < a.len(),
    ensures
        code_mask(a + "\n"@ + b)[i] == code_mask(a)[i],
        (a + "\n"@ + b)[i] == a[i],
{
    let t = a + "\n"@ + b;
    lemma_lex_in_front(a, b, i);
    lemma_lex_in_front(a, b, i + 1);
    assert(lex_at(t, i + 1) == lex_step(lex_at(t, i), t[i], char_at(t, i + 1)));
    assert(lex_at(a, i + 1) == lex_step(lex_at(a, i), a[i], char_at(a, i + 1)));
}

/// The next block of a text is its next block with a line feed and more behind it.
proof fn lemma_block_in_front(a: Seq<char>, b: Seq<char>, from: int)
    requires
        0 <= from <= a.len(),
        first_marked(code_mask(a), a, from, '{') matches Some(open) && closing_brace(
            code_mask(a),
            a,
            open,
        ) is Some,
    ensures
        ({
            let t = a + "\n"@ + b;
            let open = first_marked(code_mask(a), a, from, '{')->0;
            &&& first_marked(code_mask(t), t, from, '{') == Some(open)
            &&& closing_brace(code_mask(t), t, open) == closing_brace(code_mask(a), a, open)
            &&& t.subrange(from, open) == a.subrange(from, open)
        }),
{
    reveal_strlit("\n");
    let t = a + "\n"@ + b;
    let n = a.len() as int;
    let mt = code_mask(t);
    let ma = code_mask(a);
    let p = marked_char(mt, t, '{');
    let q = marked_char(ma, a, '{');
    assert forall|i: int| from <= i < n implies #[trigger] q(i) == p(i) by {
        lemma_marks_in_front(a, b, i);
    }
    lemma_first_agrees(q, p, from, n);
    lemma_first_found(q, from, n);
    lemma_first_extends(p, from, n, t.len() as int);
    let open = first_marked(ma, a, from, '{')->0;
    let cp = closes_brace(mt, t, open);
    let cq = closes_brace(ma, a, open);
    assert forall|i: int| open <= i < n implies #[trigger] cq(i) == cp(i) by {
        lemma_marks_in_front(a, b, i);
        assert forall|j: int| open <= j < i + 1 implies #[trigger] agrees(mt, t, 0, ma, a, j) by {
            lemma_marks_in_front(a, b, j);
        }
        lemma_depth_agrees(mt, t, 0, ma, a, open, i + 1);
    }
    lemma_first_agrees(cq, cp, open, n);
    lemma_first_extends(cp, open, n, t.len() as int);
    assert(t.subrange(from, open) =~= a.subrange(from, open));
}

/// In front of a line feed, signatures are found as they are alone, and those of what follows
/// come behind them.
proof fn lemma_signatures_joined(a: Seq<char>, b: Seq<char>, e: int, from: int)
    requires
        braces_are_nested(a),
        ends_at(a, e),
        0 <= from <= a.len(),
        brace_depth(code_mask(a), a, 0, from) == 0,
    ensures
        signatures_from(a + "\n"@ + b, from) == signatures_from(a, from) + signatures_of(b),
    decreases a.len() - from,
{
    let n = a.len() as int;
    let ma = code_mask(a);
    let q = marked_char(ma, a, '{');
    lemma_first_found(q, from, n);
    match first_marked(ma, a, from, '{') {
        Some(open) => {
            assert(q(open));
            lemma_flat_to(a, from, open);
            lemma_nested_brace_closes(a, open);
            lemma_block_in_front(a, b, from);
            let cq = closes_brace(ma, a, open);
            lemma_first_found(cq, open, n);
            let close = closing_brace(ma, a, open)->0;
            assert(cq(close));
            lemma_depth_adds_up(ma, a, 0, open, close + 1);
            lemma_signatures_joined(a, b, e, close + 1);
            let head = match header_of(a.subrange(from, open)) {
                Some(sig) => seq![sig],
                None => seq![],
            };
            assert(head + (signatures_from(a, close + 1) + signatures_of(b)) =~= head
                + signatures_from(a, close + 1) + signatures_of(b));
        },
        None => {
            lemma_no_brace_left(a, from, n);
            lemma_tail_joins(a, b, e, from);
            assert(signatures_from(a, from) + signatures_of(b) =~= signatures_of(b));
        },
    }
}

/// Up to the next opening brace, the depth of nested code stays where it is.
proof fn lemma_flat_to(s: Seq<char>, from: int, open: int)
    requires
        braces_are_nested(s),
        0 <= from <= open <= s.len(),
        brace_depth(code_mask(s), s, 0, from) == 0,
        forall|j: int| from <= j < open ==> !#[trigger] marked_char(code_mask(s), s, '{')(j),
    ensures
        brace_depth(code_mask(s), s, 0, open) == 0,
    decreases open - from,
{
    if from < open {
        lemma_flat_to(s, from, open - 1);
        assert(!marked_char(code_mask(s), s, '{')(open - 1));
        assert(brace_depth(code_mask(s), s, 0, open) >= 0);
    }
}

/// Behind the last function of a source, those of what follows are found as they are alone.
proof fn lemma_tail_joins(a: Seq<char>, b: Seq<char>, e: int, from: int)
    requires
        ends_at(a, e),
        0 <= from <= a.len(),
        forall|j: int| from <= j < a.len() ==> !(code_mask(a)[j] && #[trigger] a[j] == '}'),
        forall|j: int|
            from <= j < a.len() ==> !#[trigger] marked_char(code_mask(a), a, '{')(j),
    ensures
        signatures_from(a + "\n"@ + b, from) == signatures_of(b),
{
    let t = a + "\n"@ + b;
    let n = a.len() as int;
    let d = n + 1;
    let end = t.len() as int;
    lemma_code_behind(a, b, e);
    lemma_signatures_behind(t, d, b, 0);
    assert(e <= from) by {
        if from < e {
            assert(a[e - 1] == '}');
        }
    }
    let p = marked_char(code_mask(t), t, '{');
    assert forall|j: int| from <= j < d implies !#[trigger] p(j) by {
        if j < n {
            assert(t[j] == a[j]);
            assert(is_space(a[j]));
        }
    }
    lemma_first_skip(p, from, d, end);
    if let Some(open) = first_marked(code_mask(t), t, d, '{') {
        lemma_first_found(p, d, end);
        let w = a.subrange(from, n);
        let x = t.subrange(d, open);
        assert(t.subrange(from, open) =~= w + "\n"@ + x);
        assert forall|j: int| 0 <= j < w.len() implies is_space(#[trigger] w[j]) by {
            assert(w[j] == a[from + j]);
        }
        lemma_header_behind_space(w, x);
    }
}

/// What follows a source that ends with its last function begins as code.
proof fn lemma_code_behind(a: Seq<char>, b: Seq<char>, e: int)
    requires
        ends_at(a, e),
    ensures
        ({
            let t = a + "\n"@ + b;
            let d = a.len() + 1;
            &&& t.len() == d + b.len()
            &&& t[d - 1] == '\n'
            &&& lex_at(t, d as int) is Code
            &&& forall|i: int| 0 <= i < b.len() ==> #[trigger] b[i] == t[d + i]
        }),
{
    reveal_strlit("\n");
    let t = a + "\n"@ + b;
    let n = a.len() as int;
    if e > 0 {
        assert(lex_at(a, e) == lex_step(lex_at(a, e - 1), a[e - 1], char_at(a, e)));
    }
    lemma_space_is_code(a, e, n);
    lemma_lex_in_front(a, b, n);
    assert(t[n] == '\n');
    assert(lex_at(t, n + 1) == lex_step(lex_at(t, n), t[n], char_at(t, n + 1)));
}

/// The functions of two sources, put one behind the other on lines of their own, are those of the
/// one followed by those of the other: no function is influenced by its neighbours. The braces of
/// the first are nested, and only white space follows its last function.
pub proof fn law_signatures_of_joined_sources(a: Seq<char>, b: Seq<char>)
    requires
        braces_are_nested(a),
        exists|e: int| ends_at(a, e),
    ensures
        signatures_of(a + "\n"@ + b) == signatures_of(a) + signatures_of(b),
{
    let e = choose|e: int| ends_at(a, e);
    lemma_signatures_joined(a, b, e, 0);
}

} // verus!
