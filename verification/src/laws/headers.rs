//! How the functions of a source are read: what is code, where a function ends, and what its header
//! declares.
use vstd::prelude::*;

use crate::laws::importing::{is_alphanumeric, lemma_blank_is_trimmed_away};
use crate::laws::joining::is_blank;
use crate::laws::texts::{
    is_one_word, is_trim, lacks, law_joined_words_are_read, law_joining_goes_over_concatenation,
    law_trimming_takes_blanks_away, law_trimming_undoes_padding, law_words_are_what_blanks_separate,
    law_words_are_words,
};
use crate::parser::brace_match::{
    brace_depth, char_at, closes_brace, closing_brace, code_mask, first_marked, is_code, is_ident,
    lex_at, lex_step, marked_char,
};
use crate::parser::signatures::{
    bracket_depth, chunks_from, closes_paren, closing_paren, comment_lines, comment_start, doc_of,
    header_lines, header_of, header_start, header_text, is_identifier_text, param_of, params_of,
    params_of_chunks, paren_depth, signatures_from, signatures_of, top_level_comma, Signature,
};
use crate::text::{
    find_char, first_from, is_char_at, is_space, join, lemma_first_found, lines, occurs_at, trim,
    trim_end, words,
};

verus! {

// Counting ----------------------------------------------------------------

/// How often `c` stands in `s`.
pub open spec fn count(s: Seq<char>, c: char) -> int {
    s.filter(|x: char| x == c).len() as int
}

/// One more character counts for itself.
proof fn lemma_count_step(s: Seq<char>, c: char)
    requires
        s.len() > 0,
    ensures
        count(s, c) == count(s.drop_last(), c) + if s.last() == c {
            1int
        } else {
            0int
        },
{
    reveal(Seq::filter);
}

/// In nothing there is nothing.
proof fn lemma_count_none(c: char)
    ensures
        count(Seq::empty(), c) == 0,
{
    reveal(Seq::filter);
}

/// How deep the parentheses are is how many have been opened and not closed.
pub proof fn law_paren_depth_counts(s: Seq<char>, open: int, end: int)
    requires
        0 <= open <= end <= s.len(),
    ensures
        paren_depth(s, open, end) == count(s.subrange(open, end), '(') - count(
            s.subrange(open, end),
            ')',
        ),
    decreases end - open,
{
    let part = s.subrange(open, end);
    if open == end {
        assert(part =~= Seq::empty());
        lemma_count_none('(');
        lemma_count_none(')');
    } else {
        law_paren_depth_counts(s, open, end - 1);
        assert(part.drop_last() =~= s.subrange(open, end - 1));
        lemma_count_step(part, '(');
        lemma_count_step(part, ')');
    }
}

/// How deep the brackets are is how many have been opened and not closed.
pub proof fn law_bracket_depth_counts(s: Seq<char>, n: int)
    requires
        0 <= n <= s.len(),
    ensures
        bracket_depth(s, n) == count(s.take(n), '[') - count(s.take(n), ']'),
    decreases n,
{
    if n == 0 {
        assert(s.take(0) =~= Seq::empty());
        lemma_count_none('[');
        lemma_count_none(']');
    } else {
        law_bracket_depth_counts(s, n - 1);
        assert(s.take(n).drop_last() =~= s.take(n - 1));
        lemma_count_step(s.take(n), '[');
        lemma_count_step(s.take(n), ']');
    }
}

/// The stretch from `open` to before `end` with a space for each character that is not marked.
pub open spec fn only_marked(mask: Seq<bool>, s: Seq<char>, open: int, end: int) -> Seq<char> {
    Seq::new(
        (end - open) as nat,
        |i: int|
            if mask[open + i] {
                s[open + i]
            } else {
                ' '
            },
    )
}

/// How deep the marked braces are is how many have been opened and not closed.
pub proof fn law_brace_depth_counts(mask: Seq<bool>, s: Seq<char>, open: int, end: int)
    requires
        0 <= open <= end <= s.len(),
    ensures
        brace_depth(mask, s, open, end) == count(only_marked(mask, s, open, end), '{') - count(
            only_marked(mask, s, open, end),
            '}',
        ),
    decreases end - open,
{
    let part = only_marked(mask, s, open, end);
    if open == end {
        assert(part =~= Seq::empty());
        lemma_count_none('{');
        lemma_count_none('}');
    } else {
        law_brace_depth_counts(mask, s, open, end - 1);
        assert(part.drop_last() =~= only_marked(mask, s, open, end - 1));
        lemma_count_step(part, '{');
        lemma_count_step(part, '}');
    }
}

/// A brace is closed by the one with which as many have been closed as were opened, and before
/// which there were always more opened than closed; if it is never closed, there always are.
pub proof fn law_brace_is_closed_by_its_match(mask: Seq<bool>, s: Seq<char>, open: int)
    requires
        0 <= open < s.len(),
        mask.len() == s.len(),
        mask[open],
        s[open] == '{',
    ensures
        match closing_brace(mask, s, open) {
            Some(close) => open < close < s.len() && mask[close] && s[close] == '}' && brace_depth(
                mask,
                s,
                open,
                close + 1,
            ) == 0 && forall|end: int|
                open < end <= close ==> #[trigger] brace_depth(mask, s, open, end) > 0,
            None => forall|end: int|
                open < end <= s.len() ==> #[trigger] brace_depth(mask, s, open, end) > 0,
        },
{
    let p = closes_brace(mask, s, open);
    let n = s.len() as int;
    lemma_first_found(p, open, n);
    let stop = match closing_brace(mask, s, open) {
        Some(close) => close,
        None => n,
    };
    if let Some(close) = closing_brace(mask, s, open) {
        assert(p(close));
    }
    assert forall|end: int| open < end <= stop implies #[trigger] brace_depth(mask, s, open, end)
        > 0 by {
        lemma_brace_stays_open(mask, s, open, stop, end);
    }
}

/// Before the match the brace is open.
proof fn lemma_brace_stays_open(mask: Seq<bool>, s: Seq<char>, open: int, stop: int, end: int)
    requires
        0 <= open < end <= stop <= s.len(),
        mask[open],
        s[open] == '{',
        forall|j: int| open <= j < stop ==> !#[trigger] closes_brace(mask, s, open)(j),
    ensures
        brace_depth(mask, s, open, end) > 0,
    decreases end - open,
{
    if end == open + 1 {
        assert(brace_depth(mask, s, open, open) == 0);
    } else {
        lemma_brace_stays_open(mask, s, open, stop, end - 1);
        assert(!closes_brace(mask, s, open)(end - 1));
    }
}

/// A parenthesis is closed by the one with which as many have been closed as were opened, and before
/// which there were always more opened than closed; if it is never closed, there always are.
pub proof fn law_paren_is_closed_by_its_match(s: Seq<char>, open: int)
    requires
        0 <= open < s.len(),
        s[open] == '(',
    ensures
        match closing_paren(s, open) {
            Some(close) => open < close < s.len() && s[close] == ')' && paren_depth(
                s,
                open,
                close + 1,
            ) == 0 && forall|end: int|
                open < end <= close ==> #[trigger] paren_depth(s, open, end) > 0,
            None => forall|end: int|
                open < end <= s.len() ==> #[trigger] paren_depth(s, open, end) > 0,
        },
{
    let p = closes_paren(s, open);
    let n = s.len() as int;
    lemma_first_found(p, open, n);
    let stop = match closing_paren(s, open) {
        Some(close) => close,
        None => n,
    };
    if let Some(close) = closing_paren(s, open) {
        assert(p(close));
    }
    assert forall|end: int| open < end <= stop implies #[trigger] paren_depth(s, open, end) > 0 by {
        lemma_paren_stays_open(s, open, stop, end);
    }
}

/// Before the match the parenthesis is open.
proof fn lemma_paren_stays_open(s: Seq<char>, open: int, stop: int, end: int)
    requires
        0 <= open < end <= stop <= s.len(),
        s[open] == '(',
        forall|j: int| open <= j < stop ==> !#[trigger] closes_paren(s, open)(j),
    ensures
        paren_depth(s, open, end) > 0,
    decreases end - open,
{
    if end == open + 1 {
        assert(paren_depth(s, open, open) == 0);
    } else {
        lemma_paren_stays_open(s, open, stop, end - 1);
        assert(!closes_paren(s, open)(end - 1));
    }
}

// Code --------------------------------------------------------------------

/// A source begins as code, and goes on as code behind every character that neither begins a comment
/// nor a literal; such a character is code itself.
pub proof fn law_code_goes_on(s: Seq<char>, i: int)
    requires
        0 <= i < s.len(),
        lex_at(s, i) is Code,
        s[i] != '"',
        !(s[i] == '/' && i + 1 < s.len() && s[i + 1] == '/'),
    ensures
        lex_at(s, 0) is Code,
        is_code(s, i),
        lex_at(s, i + 1) is Code,
{
}

/// From `//` on to the end of the line, its line feed included, nothing is code; behind the line
/// feed there is code again.
pub proof fn law_comment_is_no_code(s: Seq<char>, i: int, j: int)
    requires
        0 <= i <= j < s.len(),
        lex_at(s, i) is Code,
        i + 1 < s.len(),
        s[i] == '/',
        s[i + 1] == '/',
        forall|k: int| i <= k < j ==> #[trigger] s[k] != '\n',
    ensures
        !is_code(s, j),
        s[j] == '\n' ==> lex_at(s, j + 1) is Code,
    decreases j - i,
{
    lemma_comment_goes_on(s, i, j);
}

/// A comment goes on up to a line feed.
proof fn lemma_comment_goes_on(s: Seq<char>, i: int, j: int)
    requires
        0 <= i <= j < s.len(),
        lex_at(s, i) is Code,
        i + 1 < s.len(),
        s[i] == '/',
        s[i + 1] == '/',
        forall|k: int| i <= k < j ==> #[trigger] s[k] != '\n',
    ensures
        i < j ==> lex_at(s, j) is Comment,
        lex_step(lex_at(s, i), s[i], char_at(s, i + 1)) is Comment,
    decreases j - i,
{
    if i + 1 < j {
        lemma_comment_goes_on(s, i, j - 1);
        assert(s[j - 1] != '\n');
    }
}

/// From a `"` on to the next one nothing is code, both included, as long as no `\` comes in between;
/// behind the second there is code again.
pub proof fn law_literal_is_no_code(s: Seq<char>, i: int, j: int)
    requires
        0 <= i <= j < s.len(),
        lex_at(s, i) is Code,
        s[i] == '"',
        forall|k: int| i < k < j ==> #[trigger] s[k] != '"' && s[k] != '\\',
    ensures
        !is_code(s, j),
        i < j && s[j] == '"' ==> lex_at(s, j + 1) is Code,
        i < j ==> lex_at(s, j) is Literal,
    decreases j - i,
{
    if i + 1 < j {
        law_literal_is_no_code(s, i, j - 1);
        assert(s[j - 1] != '"' && s[j - 1] != '\\');
    }
}

/// In a literal a `\` and the character behind it stand for something else: neither is code, and the
/// literal goes on behind them, even if the character is a `"`.
pub proof fn law_escape_keeps_literal_open(s: Seq<char>, i: int)
    requires
        0 <= i,
        i + 1 < s.len(),
        lex_at(s, i) is Literal,
        s[i] == '\\',
    ensures
        !is_code(s, i),
        !is_code(s, i + 1),
        lex_at(s, i + 2) is Literal,
{
    assert(lex_at(s, i + 1) is Escape);
}

// Functions ---------------------------------------------------------------

/// Position `i` holds the character, as code.
pub open spec fn is_code_char(s: Seq<char>, i: int, c: char) -> bool {
    is_code(s, i) && s[i] == c
}

/// What stands between the end of one function and the braces of the next is read as the header of
/// that; with no more braces there are no more functions.
pub proof fn law_functions_are_read_in_turn(s: Seq<char>, from: int, open: int, close: int)
    requires
        0 <= from <= open < close < s.len(),
        is_code_char(s, open, '{'),
        forall|j: int| from <= j < open ==> !#[trigger] is_code_char(s, j, '{'),
        closing_brace(code_mask(s), s, open) == Some(close),
    ensures
        signatures_from(s, from) == (match header_of(s.subrange(from, open)) {
            Some(sig) => seq![sig],
            None => Seq::empty(),
        }) + signatures_from(s, close + 1),
        (forall|j: int| close < j < s.len() ==> !#[trigger] is_code_char(s, j, '{'))
            ==> signatures_from(s, close + 1).len() == 0,
        signatures_of(s) == signatures_from(s, 0),
{
    lemma_functions_in_turn(s, from, open, close);
}

/// Without braces there are no functions.
pub proof fn law_no_functions_without_braces(s: Seq<char>, from: int)
    requires
        0 <= from <= s.len(),
        forall|j: int| from <= j < s.len() ==> !#[trigger] is_code_char(s, j, '{'),
    ensures
        signatures_from(s, from).len() == 0,
{
    let mask = code_mask(s);
    let p = marked_char(mask, s, '{');
    lemma_first_found(p, from, s.len() as int);
    if let Some(m) = first_marked(mask, s, from, '{') {
        assert(p(m));
        assert(is_code_char(s, m, '{'));
    }
}

/// Braces that are never closed end the scan.
pub proof fn law_unclosed_braces_end_the_scan(s: Seq<char>, from: int, open: int)
    requires
        0 <= from <= open < s.len(),
        is_code_char(s, open, '{'),
        forall|j: int| from <= j < open ==> !#[trigger] is_code_char(s, j, '{'),
        closing_brace(code_mask(s), s, open) is None,
    ensures
        signatures_from(s, from).len() == 0,
{
    let mask = code_mask(s);
    let p = marked_char(mask, s, '{');
    lemma_first_found(p, from, s.len() as int);
    assert(p(open));
    let k = first_marked(mask, s, from, '{')->0;
    assert(p(k));
    if k < open {
        assert(is_code_char(s, k, '{'));
    }
}

/// The functions of a source from a position on.
proof fn lemma_functions_in_turn(s: Seq<char>, from: int, open: int, close: int)
    requires
        0 <= from <= open < close < s.len(),
        is_code_char(s, open, '{'),
        forall|j: int| from <= j < open ==> !#[trigger] is_code_char(s, j, '{'),
        closing_brace(code_mask(s), s, open) == Some(close),
    ensures
        signatures_from(s, from) == (match header_of(s.subrange(from, open)) {
            Some(sig) => seq![sig],
            None => Seq::empty(),
        }) + signatures_from(s, close + 1),
        (forall|j: int| close < j < s.len() ==> !#[trigger] is_code_char(s, j, '{'))
            ==> signatures_from(s, close + 1).len() == 0,
{
    let mask = code_mask(s);
    let p = marked_char(mask, s, '{');
    let n = s.len() as int;
    lemma_first_found(p, from, n);
    assert(p(open));
    let k = first_marked(mask, s, from, '{')->0;
    assert(p(k));
    if k < open {
        assert(is_code_char(s, k, '{'));
    }
    assert(k == open);
    if forall|j: int| close < j < s.len() ==> !#[trigger] is_code_char(s, j, '{') {
        lemma_first_found(p, close + 1, n);
        if let Some(m) = first_marked(mask, s, close + 1, '{') {
            assert(p(m));
            assert(is_code_char(s, m, '{'));
        }
    }
}

// Headers -----------------------------------------------------------------

/// The line holds a comment and nothing before it.
pub open spec fn is_remark(line: Seq<char>) -> bool {
    occurs_at(trim(line), "//"@, 0)
}

/// The line holds neither a comment only nor nothing.
pub open spec fn is_declaring(line: Seq<char>) -> bool {
    trim(line).len() > 0 && !is_remark(line)
}

/// The header of a function is all the lines at the end that declare something, and its comment is
/// all the comment lines directly above these. What stands above, behind a blank line or a line of
/// code, belongs to neither.
pub proof fn law_comment_stands_on_its_header(
    above: Seq<Seq<char>>,
    comments: Seq<Seq<char>>,
    headers: Seq<Seq<char>>,
)
    requires
        forall|k: int| 0 <= k < comments.len() ==> is_remark(#[trigger] comments[k]),
        forall|k: int| 0 <= k < headers.len() ==> is_declaring(#[trigger] headers[k]),
        above.len() > 0 ==> !is_remark(above.last()),
        above.len() > 0 && comments.len() == 0 ==> !is_declaring(above.last()),
    ensures
        header_lines(above + comments + headers) == headers,
        comment_lines(above + comments + headers) == comments,
{
    let all = above + comments + headers;
    let a = above.len() as int;
    let b = a + comments.len();
    let n = all.len() as int;
    lemma_header_start(all, b, n);
    assert(header_start(all, n) == b) by {
        if b > 0 {
            if comments.len() > 0 {
                assert(all[b - 1] == comments[comments.len() - 1]);
            } else {
                assert(all[b - 1] == above.last());
            }
        }
    }
    lemma_comment_start(all, a, b);
    assert(comment_start(all, b) == a) by {
        if a > 0 {
            assert(all[a - 1] == above.last());
        }
    }
    assert(all.skip(b) =~= headers);
    assert(all.subrange(a, b) =~= comments);
}

/// Header lines at the end are gone over.
proof fn lemma_header_start(all: Seq<Seq<char>>, from: int, n: int)
    requires
        0 <= from <= n <= all.len(),
        forall|k: int| from <= k < n ==> is_declaring(#[trigger] all[k]),
    ensures
        header_start(all, n) == header_start(all, from),
    decreases n - from,
{
    if from < n {
        assert(is_declaring(all[n - 1]));
        lemma_header_start(all, from, n - 1);
    }
}

/// Comment lines at the end are gone over.
proof fn lemma_comment_start(all: Seq<Seq<char>>, from: int, n: int)
    requires
        0 <= from <= n <= all.len(),
        forall|k: int| from <= k < n ==> is_remark(#[trigger] all[k]),
    ensures
        comment_start(all, n) == comment_start(all, from),
    decreases n - from,
{
    if from < n {
        assert(is_remark(all[n - 1]));
        lemma_comment_start(all, from, n - 1);
    }
}

/// The parentheses of `s` are properly nested, and balanced.
pub open spec fn parens_are_nested(s: Seq<char>) -> bool {
    &&& forall|i: int| 0 <= i <= s.len() ==> #[trigger] paren_depth(s, 0, i) >= 0
    &&& paren_depth(s, 0, s.len() as int) == 0
}

/// The name is one that a function can have: letters, digits and `_`, and no digit first.
pub open spec fn can_name_function(name: Seq<char>) -> bool {
    &&& name.len() > 0
    &&& !('0' <= name[0] <= '9')
    &&& forall|i: int| 0 <= i < name.len() ==> is_alphanumeric(#[trigger] name[i]) || name[i] == '_'
}

/// The lines before a function's braces are its header, joined by spaces, and above it the comment
/// that documents it, up to a blank line or a line of code.
pub proof fn law_header_and_comment_are_told_apart(
    pre: Seq<char>,
    above: Seq<Seq<char>>,
    comments: Seq<Seq<char>>,
    headers: Seq<Seq<char>>,
)
    requires
        lines(trim_end(pre)) == above + comments + headers,
        forall|k: int| 0 <= k < comments.len() ==> is_remark(#[trigger] comments[k]),
        forall|k: int| 0 <= k < headers.len() ==> is_declaring(#[trigger] headers[k]),
        above.len() > 0 ==> !is_remark(above.last()),
        above.len() > 0 && comments.len() == 0 ==> !is_declaring(above.last()),
    ensures
        header_text(pre) == trim(join(headers, " "@)),
        header_of(pre) matches Some(sig) ==> sig.doc == doc_of(comments),
{
    law_comment_stands_on_its_header(above, comments, headers);
}

/// A header reads as it is written: the words of the return type, the name, and a list of parameters
/// in parentheses, with white space before these or none. The comment above it is its documentation.
pub proof fn law_header_is_read(
    pre: Seq<char>,
    types: Seq<Seq<char>>,
    name: Seq<char>,
    blank: Seq<char>,
    list: Seq<char>,
)
    requires
        types.len() > 0,
        forall|k: int|
            0 <= k < types.len() ==> is_one_word(#[trigger] types[k]) && lacks(types[k], '('),
        can_name_function(name),
        is_blank(blank),
        parens_are_nested(list),
        header_text(pre) == join(types.push(name), " "@) + blank + "("@ + list + ")"@,
    ensures
        header_of(pre) == Some(
            Signature {
                name,
                params: params_of(list),
                return_type: join(types, " "@),
                doc: doc_of(comment_lines(lines(trim_end(pre)))),
            },
        ),
{
    reveal_strlit("(");
    reveal_strlit(")");
    reveal_strlit(" ");
    let header = header_text(pre);
    let tokens = types.push(name);
    let front = join(tokens, " "@) + blank;
    let open = front.len() as int;
    let close = header.len() - 1;
    assert(header =~= front + "("@ + list + ")"@);
    lemma_identifier_is_word(name);
    assert forall|k: int| 0 <= k < tokens.len() implies is_one_word(#[trigger] tokens[k]) && lacks(
        tokens[k],
        '(',
    ) by {
        if k < types.len() {
            assert(tokens[k] == types[k]);
        }
    }
    lemma_join_lacks(tokens, " "@, '(');
    let p = is_char_at(header, '(');
    lemma_first_found(p, 0, header.len() as int);
    assert(header[open] == '(');
    assert(p(open));
    let at = find_char(header, '(')->0;
    if at < open {
        assert(p(at));
        assert(header[at] == front[at]);
        if at >= join(tokens, " "@).len() {
            assert(is_space(blank[at - join(tokens, " "@).len()]));
        }
    }
    assert(at == open);
    assert(header.take(open) =~= front);
    lemma_padded_words_are_read(tokens, blank);
    assert(words(front) == tokens);
    assert(tokens.drop_last() =~= types);
    let q = closes_paren(header, open);
    lemma_first_found(q, open, header.len() as int);
    lemma_depth_in_list(header, open, list, list.len() as int);
    assert(header[close] == ')');
    assert(close == open + 1 + list.len());
    assert(q(close));
    let c = closing_paren(header, open)->0;
    if c < close {
        assert(q(c));
        if c == open {
            assert(header[open] == '(');
        } else {
            let k = c - open - 1;
            assert(header[c] == list[k]);
            lemma_depth_in_list(header, open, list, k + 1);
            assert(paren_depth(list, 0, k + 1) >= 0);
        }
    }
    assert(c == close);
    assert(header.subrange(open + 1, close) =~= list);
    assert(header.skip(close + 1) =~= Seq::empty());
    assert(trim(Seq::<char>::empty()).len() == 0);
    assert(is_one_word(types[0]));
    lemma_first_is_joined(types, " "@);
}

/// In the list behind a parenthesis it is one deeper than in the list alone.
proof fn lemma_depth_in_list(header: Seq<char>, open: int, list: Seq<char>, k: int)
    requires
        0 <= k <= list.len(),
        0 <= open,
        open + 1 + list.len() <= header.len(),
        header[open] == '(',
        forall|j: int| 0 <= j < list.len() ==> header[open + 1 + j] == #[trigger] list[j],
    ensures
        paren_depth(header, open, open + 1 + k) == 1 + paren_depth(list, 0, k),
    decreases k,
{
    if k > 0 {
        lemma_depth_in_list(header, open, list, k - 1);
        assert(header[open + 1 + (k - 1)] == list[k - 1]);
    } else {
        assert(paren_depth(header, open, open) == 0);
    }
}

/// Joined texts are not empty if the first is not.
proof fn lemma_first_is_joined(parts: Seq<Seq<char>>, sep: Seq<char>)
    requires
        parts.len() > 0,
        parts[0].len() > 0,
    ensures
        join(parts, sep).len() > 0,
    decreases parts.len(),
{
    if parts.len() > 1 {
        assert(parts.drop_last()[0] == parts[0]);
        lemma_first_is_joined(parts.drop_last(), sep);
    }
}

/// An identifier is a word without parentheses.
proof fn lemma_identifier_is_word(name: Seq<char>)
    requires
        can_name_function(name),
    ensures
        is_identifier_text(name),
        is_one_word(name),
        lacks(name, '('),
{
    assert forall|i: int| 1 <= i < name.len() implies is_ident(#[trigger] name[i]) by {
        assert(is_alphanumeric(name[i]) || name[i] == '_');
    }
    assert forall|i: int| 0 <= i < name.len() implies !is_space(#[trigger] name[i]) && name[i]
        != '(' by {
        if i > 0 {
            assert(is_ident(name[i]));
        }
    }
}

/// What joined texts and their separator lack, they lack together.
proof fn lemma_join_lacks(parts: Seq<Seq<char>>, sep: Seq<char>, c: char)
    requires
        forall|k: int| 0 <= k < parts.len() ==> lacks(#[trigger] parts[k], c),
        lacks(sep, c),
    ensures
        lacks(join(parts, sep), c),
    decreases parts.len(),
{
    if parts.len() == 1 {
        assert(lacks(parts[0], c));
    } else if parts.len() > 1 {
        let front = parts.drop_last();
        assert forall|k: int| 0 <= k < front.len() implies lacks(#[trigger] front[k], c) by {
            assert(front[k] == parts[k]);
        }
        lemma_join_lacks(front, sep, c);
        let last = parts[parts.len() - 1];
        assert(lacks(last, c));
        let all = join(parts, sep);
        let a = join(front, sep);
        assert(all =~= a + sep + last);
        assert forall|i: int| 0 <= i < all.len() implies #[trigger] all[i] != c by {
            if i < a.len() {
                assert(all[i] == a[i]);
            } else if i < a.len() + sep.len() {
                assert(all[i] == sep[i - a.len()]);
            } else {
                assert(all[i] == last[i - a.len() - sep.len()]);
            }
        }
    }
}

/// Words joined by spaces, with white space behind them, are read back.
proof fn lemma_padded_words_are_read(all: Seq<Seq<char>>, blank: Seq<char>)
    requires
        forall|k: int| 0 <= k < all.len() ==> is_one_word(#[trigger] all[k]),
        is_blank(blank),
    ensures
        words(join(all, " "@) + blank) == all,
    decreases all.len(),
{
    reveal_strlit(" ");
    let none = Seq::<char>::empty();
    if all.len() == 0 {
        law_words_are_words(blank);
        assert(join(all, " "@) + blank =~= blank);
        assert(words(blank) =~= all);
    } else {
        let first = all[0];
        let rest = all.drop_first();
        assert forall|k: int| 0 <= k < rest.len() implies is_one_word(#[trigger] rest[k]) by {
            assert(rest[k] == all[k + 1]);
        }
        lemma_padded_words_are_read(rest, blank);
        assert(seq![first] + rest =~= all);
        if rest.len() == 0 {
            law_words_are_words(none);
            law_words_are_what_blanks_separate(first, blank, none);
            assert(first + blank + none =~= join(all, " "@) + blank);
            assert(words(join(all, " "@) + blank) =~= all);
        } else {
            let behind = join(rest, " "@) + blank;
            law_joining_goes_over_concatenation(seq![first], rest, " "@);
            assert(join(seq![first], " "@) == first);
            law_words_are_what_blanks_separate(first, " "@, behind);
            assert(first + " "@ + behind =~= join(all, " "@) + blank);
        }
    }
}

/// The first `(` of `s` is at `open`, and the one that closes it is the last character of `s`.
pub open spec fn has_list_at(s: Seq<char>, open: int) -> bool {
    &&& 0 <= open < s.len()
    &&& s[open] == '('
    &&& lacks(s.take(open), '(')
    &&& closing_paren(s, open) == Some(s.len() - 1)
}

/// A text reads as the header of a function exactly if it ends with the `)` that closes its first
/// `(`, before which there are at least two words, of which the last can name a function; then that
/// is its name, the words before it are its return type, and what is between the parentheses declares
/// its parameters.
pub proof fn law_functions_are_what_have_headers(pre: Seq<char>)
    ensures
        header_of(pre) matches Some(sig) ==> exists|open: int| #[trigger]
            has_list_at(header_text(pre), open) && {
                let tokens = words(header_text(pre).take(open));
                &&& tokens.len() >= 2
                &&& can_name_function(sig.name)
                &&& sig.name == tokens.last()
                &&& sig.return_type == join(tokens.drop_last(), " "@)
                &&& sig.params == params_of(
                    header_text(pre).subrange(open + 1, header_text(pre).len() - 1),
                )
            },
        forall|open: int| #[trigger]
            has_list_at(header_text(pre), open) && words(header_text(pre).take(open)).len() >= 2
                && can_name_function(words(header_text(pre).take(open)).last()) ==> header_of(
                pre,
            ) is Some,
{
    let header = header_text(pre);
    let n = header.len() as int;
    let p = is_char_at(header, '(');
    lemma_first_found(p, 0, n);
    if let Some(sig) = header_of(pre) {
        let open = find_char(header, '(')->0;
        assert(p(open));
        let q = closes_paren(header, open);
        lemma_first_found(q, open, n);
        let close = closing_paren(header, open)->0;
        assert(q(close));
        let rest = header.skip(close + 1);
        lemma_blank_is_trimmed_away(rest);
        law_trimming_takes_blanks_away(join(header_lines(lines(trim_end(pre))), " "@));
        if rest.len() > 0 {
            assert(rest[rest.len() - 1] == header.last());
        }
        assert(close == n - 1);
        assert forall|j: int| 0 <= j < open implies #[trigger] header.take(open)[j] != '(' by {
            assert(!p(j));
        }
        assert(has_list_at(header, open));
        let tokens = words(header.take(open));
        if tokens.len() == 1 {
            assert(tokens.drop_last() =~= Seq::empty());
        }
        assert forall|i: int| 0 <= i < sig.name.len() implies is_alphanumeric(
            #[trigger] sig.name[i],
        ) || sig.name[i] == '_' by {
            if i > 0 {
                assert(is_ident(sig.name[i]));
            }
        }
    }
    assert forall|open: int| #[trigger]
        has_list_at(header, open) && words(header.take(open)).len() >= 2 && can_name_function(
            words(header.take(open)).last(),
        ) implies header_of(pre) is Some by {
        assert(p(open));
        let at = find_char(header, '(')->0;
        assert(p(at));
        if at < open {
            assert(header.take(open)[at] == '(');
        }
        let tokens = words(header.take(open));
        lemma_identifier_is_word(tokens.last());
        law_words_are_words(header.take(open));
        assert(is_one_word(tokens[0]));
        assert(tokens.drop_last()[0] == tokens[0]);
        lemma_first_is_joined(tokens.drop_last(), " "@);
        assert(header.skip(n) =~= Seq::empty());
        assert(trim(Seq::<char>::empty()).len() == 0);
    }
}

// Parameters --------------------------------------------------------------

/// Position `i` of `s` holds a comma that is in no brackets.
pub open spec fn is_dividing(s: Seq<char>, i: int) -> bool {
    s[i] == ',' && count(s.take(i), '[') == count(s.take(i), ']')
}

/// Parameters are what commas outside of brackets separate: those of two lists with a comma in
/// between are those of the one and then those of the other, where the brackets of the first are
/// balanced.
pub proof fn law_params_go_over_commas(a: Seq<char>, b: Seq<char>)
    requires
        count(a, '[') == count(a, ']'),
    ensures
        params_of(a + seq![','] + b) == params_of(a) + params_of(b),
{
    law_bracket_depth_counts(a, a.len() as int);
    assert(a.take(a.len() as int) =~= a);
    lemma_chunks_joined(a, b, 0);
    lemma_params_concat(chunks_from(a, 0), chunks_from(b, 0));
}

/// The stretches of two lists with a comma in between.
proof fn lemma_chunks_joined(a: Seq<char>, b: Seq<char>, from: int)
    requires
        0 <= from <= a.len(),
        bracket_depth(a, a.len() as int) == 0,
    ensures
        chunks_from(a + seq![','] + b, from) == chunks_from(a, from) + chunks_from(b, 0),
    decreases a.len() - from,
{
    let s = a + seq![','] + b;
    let n = a.len() as int;
    let end = s.len() as int;
    let p = top_level_comma(s);
    let q = top_level_comma(a);
    assert forall|i: int| from <= i < n implies #[trigger] p(i) == q(i) by {
        lemma_same_brackets(s, a, i);
        assert(s[i] == a[i]);
    }
    lemma_first_found(p, from, end);
    lemma_first_found(q, from, n);
    lemma_same_brackets(s, a, n);
    assert(s[n] == ',');
    assert(p(n));
    let i = first_from(p, from, end)->0;
    assert(p(i));
    match first_from(q, from, n) {
        None => {
            if i < n {
                assert(q(i));
            }
            assert(i == n);
            assert(s.subrange(from, n) =~= a.skip(from));
            assert((a + seq![',']).drop_last() =~= a);
            lemma_chunks_shift(a + seq![','], b, 0);
            assert((a + seq![',']) + b =~= s);
            assert(chunks_from(s, from) =~= chunks_from(a, from) + chunks_from(b, 0));
        },
        Some(k) => {
            assert(q(k));
            assert(p(k));
            if i < k {
                assert(q(i));
            }
            assert(i == k);
            lemma_chunks_joined(a, b, k + 1);
            assert(s.subrange(from, k) =~= a.subrange(from, k));
            assert(chunks_from(s, from) =~= chunks_from(a, from) + chunks_from(b, 0));
        },
    }
}

/// The brackets of the first characters depend on these alone.
proof fn lemma_same_brackets(s: Seq<char>, a: Seq<char>, n: int)
    requires
        0 <= n <= a.len() <= s.len(),
        forall|j: int| 0 <= j < a.len() ==> s[j] == #[trigger] a[j],
    ensures
        bracket_depth(s, n) == bracket_depth(a, n),
    decreases n,
{
    if n > 0 {
        lemma_same_brackets(s, a, n - 1);
        assert(s[n - 1] == a[n - 1]);
    }
}

/// Behind balanced brackets the depth is as at the start.
proof fn lemma_brackets_behind(u: Seq<char>, b: Seq<char>, n: int)
    requires
        0 <= n <= b.len(),
        bracket_depth(u, u.len() as int) == 0,
    ensures
        bracket_depth(u + b, u.len() + n) == bracket_depth(b, n),
    decreases n,
{
    if n > 0 {
        lemma_brackets_behind(u, b, n - 1);
        assert((u + b)[u.len() + n - 1] == b[n - 1]);
    } else {
        lemma_same_brackets(u + b, u, u.len() as int);
    }
}

/// What stands in front, with its brackets balanced, does not change the stretches behind it.
proof fn lemma_chunks_shift(u: Seq<char>, b: Seq<char>, from: int)
    requires
        0 <= from <= b.len(),
        u.len() > 0,
        u.last() == ',',
        bracket_depth(u.drop_last(), u.len() - 1) == 0,
    ensures
        chunks_from(u + b, u.len() + from) == chunks_from(b, from),
    decreases b.len() - from,
{
    let s = u + b;
    let d = u.len() as int;
    let p = top_level_comma(s);
    let q = top_level_comma(b);
    lemma_same_brackets(u, u.drop_last(), d - 1);
    assert(bracket_depth(u, d) == 0);
    assert forall|i: int| from <= i < b.len() implies #[trigger] q(i) == p(d + i) by {
        lemma_brackets_behind(u, b, i);
        assert(s[d + i] == b[i]);
    }
    lemma_first_found(q, from, b.len() as int);
    lemma_first_found(p, d + from, s.len() as int);
    match first_from(q, from, b.len() as int) {
        None => {
            if let Some(i) = first_from(p, d + from, s.len() as int) {
                assert(p(i));
                assert(q(i - d) == p(d + (i - d)));
            }
            assert(s.skip(d + from) =~= b.skip(from));
        },
        Some(k) => {
            assert(q(k));
            assert(p(d + k));
            let i = first_from(p, d + from, s.len() as int)->0;
            assert(p(i));
            if i < d + k {
                assert(q(i - d) == p(d + (i - d)));
            }
            assert(i == d + k);
            lemma_chunks_shift(u, b, k + 1);
            assert(s.subrange(d + from, d + k) =~= b.subrange(from, k));
            assert(chunks_from(s, d + from) =~= chunks_from(b, from));
        },
    }
}

/// The stretches between the commas outside of brackets hold no such comma, and give the list back
/// when they are joined by commas.
pub proof fn law_stretches_give_the_list_back(s: Seq<char>)
    ensures
        join(chunks_from(s, 0), seq![',']) == s,
{
    lemma_stretches_joined(s, 0);
    assert(s.skip(0) =~= s);
}

/// The stretches from a position on.
proof fn lemma_stretches_joined(s: Seq<char>, from: int)
    requires
        0 <= from <= s.len(),
    ensures
        chunks_from(s, from).len() > 0,
        join(chunks_from(s, from), seq![',']) == s.skip(from),
    decreases s.len() - from,
{
    let p = top_level_comma(s);
    lemma_first_found(p, from, s.len() as int);
    if let Some(i) = first_from(p, from, s.len() as int) {
        assert(p(i));
        lemma_stretches_joined(s, i + 1);
        let rest = chunks_from(s, i + 1);
        law_joining_goes_over_concatenation(seq![s.subrange(from, i)], rest, seq![',']);
        assert(join(seq![s.subrange(from, i)], seq![',']) == s.subrange(from, i));
        assert(s.skip(from) =~= s.subrange(from, i) + seq![','] + s.skip(i + 1));
    }
}

/// The parameters of two lists of stretches.
proof fn lemma_params_concat(x: Seq<Seq<char>>, y: Seq<Seq<char>>)
    ensures
        params_of_chunks(x + y) == params_of_chunks(x) + params_of_chunks(y),
    decreases y.len(),
{
    if y.len() == 0 {
        assert(x + y =~= x);
        assert(params_of_chunks(x) + params_of_chunks(y) =~= params_of_chunks(x));
    } else {
        assert((x + y).drop_last() =~= x + y.drop_last());
        lemma_params_concat(x, y.drop_last());
        assert(params_of_chunks(x + y) =~= params_of_chunks(x) + params_of_chunks(y));
    }
}

/// A parameter reads as it is written: the words of its type and its name, with white space around
/// them or none, and with commas in brackets only.
pub proof fn law_param_is_type_and_name(
    before: Seq<char>,
    types: Seq<Seq<char>>,
    name: Seq<char>,
    behind: Seq<char>,
)
    requires
        types.len() > 0,
        forall|k: int| 0 <= k < types.len() ==> is_one_word(#[trigger] types[k]),
        is_one_word(name),
        is_blank(before),
        is_blank(behind),
        ({
            let s = before + join(types.push(name), " "@) + behind;
            forall|i: int| 0 <= i < s.len() ==> !#[trigger] is_dividing(s, i)
        }),
    ensures
        params_of(before + join(types.push(name), " "@) + behind) == seq![
            (name, join(types, " "@)),
        ],
{
    let tokens = types.push(name);
    let text = join(tokens, " "@);
    let s = before + text + behind;
    lemma_undivided(s);
    assert forall|k: int| 0 <= k < tokens.len() implies is_one_word(#[trigger] tokens[k]) by {
        if k < types.len() {
            assert(tokens[k] == types[k]);
        }
    }
    lemma_joined_is_trim(tokens);
    law_trimming_undoes_padding(before, text, behind);
    law_joined_words_are_read(tokens);
    assert(tokens.drop_last() =~= types);
    assert(is_one_word(types[0]));
    lemma_first_is_joined(types, " "@);
    assert(param_of(s) == Some((name, join(types, " "@))));
    lemma_one_chunk(s);
}

/// A list without parameters, or with a single word, declares none.
pub proof fn law_param_needs_a_type(s: Seq<char>)
    requires
        words(trim(s)).len() < 2,
        forall|i: int| 0 <= i < s.len() ==> !#[trigger] is_dividing(s, i),
    ensures
        params_of(s).len() == 0,
{
    lemma_undivided(s);
    let tokens = words(trim(s));
    if tokens.len() == 1 {
        assert(tokens.drop_last() =~= Seq::empty());
        assert(join(tokens.drop_last(), " "@).len() == 0);
    }
    lemma_one_chunk(s);
}

/// The parameters of one stretch.
proof fn lemma_one_chunk(s: Seq<char>)
    ensures
        params_of_chunks(seq![s]) == (match param_of(s) {
            Some(param) => seq![param],
            None => Seq::empty(),
        }),
{
    assert(params_of_chunks(seq![s].drop_last()) =~= Seq::empty());
    assert(params_of_chunks(seq![s]) =~= (match param_of(s) {
        Some(param) => seq![param],
        None => Seq::empty(),
    }));
}

/// A list without dividing commas is one stretch.
proof fn lemma_undivided(s: Seq<char>)
    requires
        forall|i: int| 0 <= i < s.len() ==> !#[trigger] is_dividing(s, i),
    ensures
        chunks_from(s, 0) == seq![s],
{
    let p = top_level_comma(s);
    lemma_first_found(p, 0, s.len() as int);
    if let Some(i) = first_from(p, 0, s.len() as int) {
        assert(p(i));
        law_bracket_depth_counts(s, i);
        assert(is_dividing(s, i));
    }
    assert(s.skip(0) =~= s);
}

/// Words joined by spaces neither begin nor end with white space.
proof fn lemma_joined_is_trim(all: Seq<Seq<char>>)
    requires
        forall|k: int| 0 <= k < all.len() ==> is_one_word(#[trigger] all[k]),
    ensures
        is_trim(join(all, " "@)),
        all.len() > 0 ==> join(all, " "@).len() > 0 && join(all, " "@)[0] == all[0][0],
    decreases all.len(),
{
    if all.len() == 1 {
        assert(is_one_word(all[0]));
    } else if all.len() > 1 {
        let front = all.drop_last();
        let last = all[all.len() - 1];
        assert forall|k: int| 0 <= k < front.len() implies is_one_word(#[trigger] front[k]) by {
            assert(front[k] == all[k]);
        }
        lemma_joined_is_trim(front);
        assert(is_one_word(last));
        assert(join(all, " "@).last() == last.last());
        assert(join(all, " "@)[0] == join(front, " "@)[0]);
        assert(is_one_word(all[0]));
    }
}

} // verus!
