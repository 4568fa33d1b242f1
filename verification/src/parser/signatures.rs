//! Shallow scan of a `.stan` source's top-level function signatures and their
//! preceding `// @laplace` doc comments.
//!
//! This runs both on installed packages (whole `.stan` files that are just a
//! sequence of function definitions) and on the content of a `functions { }` block.
//! It never inspects statements *inside* a function body other than to find where
//! the body ends.
use vstd::prelude::*;
use vstd::string::*;

use crate::parser::brace_match::{
    closes_brace, closing_brace, code_mask, first_marked, is_ident, is_ident_char, is_letter,
    marked_char, CodeMask,
};
use crate::text::{
    as_position, chars_of, clone_option, clone_pairs, deep, find_char, first_from, has_prefix, join,
    joined, lemma_first_found, lines, lines_of, position_of, same, slice_of, slice_texts,
    split_at_space, split_space, starts_with, strip_prefix, trim, trim_end, trim_start, trimmed,
    trimmed_end, trimmed_start, without_prefix, words, words_of,
};

verus! {

/// One parameter of a function signature: `(param_name, param_type)`.
pub type Param = (String, String);

/// A top-level function signature, with its doc comment if one was attached.
#[derive(Debug, PartialEq, Eq)]
pub struct FunctionSig {
    pub name: String,
    pub params: Vec<Param>,
    pub return_type: String,
    pub doc: Option<Doc>,
}

/// Structured content of a `// @laplace` doc comment block.
#[derive(Debug, PartialEq, Eq)]
pub struct Doc {
    pub brief: Option<String>,
    /// `(param_name, description)`, in the order they appear in the comment.
    pub params: Vec<Param>,
    pub return_doc: Option<String>,
    /// A formula, its line breaks kept.
    pub math: Option<String>,
    /// A usage example, its line breaks kept.
    pub example: Option<String>,
}

/// What a function signature says.
#[verifier::ext_equal]
pub struct Signature {
    pub name: Seq<char>,
    pub params: Seq<(Seq<char>, Seq<char>)>,
    pub return_type: Seq<char>,
    pub doc: Option<DocText>,
}

/// What a doc comment says.
#[verifier::ext_equal]
pub struct DocText {
    pub brief: Option<Seq<char>>,
    pub params: Seq<(Seq<char>, Seq<char>)>,
    pub return_doc: Option<Seq<char>>,
    pub math: Option<Seq<char>>,
    pub example: Option<Seq<char>>,
}

impl DeepView for FunctionSig {
    type V = Signature;

    open spec fn deep_view(&self) -> Signature {
        Signature {
            name: self.name@,
            params: deep(self.params@),
            return_type: self.return_type@,
            doc: self.doc.deep_view(),
        }
    }
}

impl DeepView for Doc {
    type V = DocText;

    open spec fn deep_view(&self) -> DocText {
        DocText {
            brief: self.brief.deep_view(),
            params: deep(self.params@),
            return_doc: self.return_doc.deep_view(),
            math: self.math.deep_view(),
            example: self.example.deep_view(),
        }
    }
}

/// A doc comment that says nothing.
pub open spec fn no_text() -> DocText {
    DocText { brief: None, params: seq![], return_doc: None, math: None, example: None }
}

impl Default for Doc {
    fn default() -> (r: Self)
        ensures
            r.deep_view() == no_text(),
    {
        let doc = Doc {
            brief: None,
            params: Vec::new(),
            return_doc: None,
            math: None,
            example: None,
        };
        assert(doc.deep_view() =~= no_text());
        doc
    }
}

impl Clone for Doc {
    fn clone(&self) -> (r: Self)
        ensures
            r.deep_view() == self.deep_view(),
    {
        Doc {
            brief: clone_option(&self.brief),
            params: clone_pairs(&self.params),
            return_doc: clone_option(&self.return_doc),
            math: clone_option(&self.math),
            example: clone_option(&self.example),
        }
    }
}

impl Clone for FunctionSig {
    fn clone(&self) -> (r: Self)
        ensures
            r.deep_view() == self.deep_view(),
    {
        let doc = match &self.doc {
            Some(doc) => Some(doc.clone()),
            None => None,
        };
        FunctionSig {
            name: self.name.clone(),
            params: clone_pairs(&self.params),
            return_type: self.return_type.clone(),
            doc,
        }
    }
}

// Signatures --------------------------------------------------------------

/// The signatures of the functions of `s` whose text begins at position `from` or later:
/// the text before each top-level `{ ... }` of real code, where that reads as a header.
/// A brace that is never closed ends the scan.
pub open spec fn signatures_from(s: Seq<char>, from: int) -> Seq<Signature>
    decreases s.len() - from,
{
    let mask = code_mask(s);
    proof {
        lemma_first_found(marked_char(mask, s, '{'), from, s.len() as int);
        if let Some(open) = first_marked(mask, s, from, '{') {
            lemma_first_found(closes_brace(mask, s, open), open, s.len() as int);
        }
    }
    match first_marked(mask, s, from, '{') {
        None => seq![],
        Some(open) => match closing_brace(mask, s, open) {
            None => seq![],
            Some(close) => (match header_of(s.subrange(from, open)) {
                Some(sig) => seq![sig],
                None => seq![],
            }) + signatures_from(s, close + 1),
        },
    }
}

/// The signatures of the top-level functions of `s`, in order.
pub open spec fn signatures_of(s: Seq<char>) -> Seq<Signature> {
    signatures_from(s, 0)
}

/// Extract every top-level function signature from `source`.
///
/// Functions without a `// @laplace`-tagged doc comment directly above them still get
/// their signature extracted, with `doc: None` -- a doc comment is never required.
pub fn extract_signatures(source: &str) -> (r: Vec<FunctionSig>)
    ensures
        deep(r@) == signatures_of(source@),
{
    let chars = chars_of(source);
    let mask = CodeMask::new(chars.as_slice());
    let mut sigs: Vec<FunctionSig> = Vec::new();
    let mut segment_start: usize = 0;
    loop
        invariant
            chars@ == source@,
            mask@ == code_mask(source@),
            segment_start <= chars@.len(),
            deep(sigs@) + signatures_from(source@, segment_start as int) == signatures_of(source@),
        decreases chars@.len() - segment_start,
    {
        let open_brace = match mask.find_real(chars.as_slice(), segment_start, '{') {
            Some(open) => open,
            None => {
                assert(deep(sigs@) + signatures_from(source@, segment_start as int) =~= deep(
                    sigs@,
                ));
                return sigs;
            },
        };
        let close_brace = match mask.match_closing_brace(chars.as_slice(), open_brace) {
            Some(close) => close,
            None => {
                // Unbalanced braces: nothing sensible to do in a shallow scan, stop
                // rather than mis-parse the remainder.
                assert(deep(sigs@) + signatures_from(source@, segment_start as int) =~= deep(
                    sigs@,
                ));
                return sigs;
            },
        };
        let ghost before = sigs@;
        let pre = slice_of(chars.as_slice(), segment_start, open_brace);
        if let Some(sig) = parse_function_header(pre.as_str()) {
            sigs.push(sig);
        }
        assert(deep(sigs@) + signatures_from(source@, close_brace + 1) =~= deep(before)
            + signatures_from(source@, segment_start as int));
        segment_start = close_brace + 1;
    }
}

/// A line that is neither blank nor a comment.
pub open spec fn is_header_line(line: Seq<char>) -> bool {
    trim(line).len() > 0 && !is_comment_line(line)
}

/// A line that holds a `//` comment and nothing before it.
pub open spec fn is_comment_line(line: Seq<char>) -> bool {
    has_prefix(trim(line), "//"@)
}

/// Where the header lines that end before line `n` begin.
pub open spec fn header_start(all: Seq<Seq<char>>, n: int) -> int
    decreases n,
{
    if n > 0 && is_header_line(all[n - 1]) {
        header_start(all, n - 1)
    } else {
        n
    }
}

/// Where the comment lines that end before line `n` begin.
pub open spec fn comment_start(all: Seq<Seq<char>>, n: int) -> int
    decreases n,
{
    if n > 0 && is_comment_line(all[n - 1]) {
        comment_start(all, n - 1)
    } else {
        n
    }
}

/// The header lines at the end of `all`: those below the last line that is blank or a
/// comment.
pub open spec fn header_lines(all: Seq<Seq<char>>) -> Seq<Seq<char>> {
    all.skip(header_start(all, all.len() as int))
}

/// The comment lines directly above the header lines at the end of `all`. A blank line
/// in between detaches a comment.
pub open spec fn comment_lines(all: Seq<Seq<char>>) -> Seq<Seq<char>> {
    let end = header_start(all, all.len() as int);
    all.subrange(comment_start(all, end), end)
}

/// The text of a function's header: its lines joined by spaces.
pub open spec fn header_text(pre: Seq<char>) -> Seq<char> {
    trim(join(header_lines(lines(trim_end(pre))), " "@))
}

/// The number of `(` from `open` to before `end`, less the number of `)`.
pub open spec fn paren_depth(s: Seq<char>, open: int, end: int) -> int
    decreases end - open,
{
    if end <= open {
        0
    } else {
        paren_depth(s, open, end - 1) + if s[end - 1] == '(' {
            1int
        } else if s[end - 1] == ')' {
            -1int
        } else {
            0int
        }
    }
}

/// A position that holds a `)` with which the depth counted from `open` on is back at
/// zero.
pub open spec fn closes_paren(s: Seq<char>, open: int) -> spec_fn(int) -> bool {
    |i: int| s[i] == ')' && paren_depth(s, open, i + 1) == 0
}

/// The `)` that matches the `(` at `open`.
pub open spec fn closing_paren(s: Seq<char>, open: int) -> Option<int> {
    first_from(closes_paren(s, open), open, s.len() as int)
}

/// The signature that the text before a function body's `{` makes, where it reads as
/// `<return_type> <name>(<params>)` with nothing behind it.
pub open spec fn header_of(pre: Seq<char>) -> Option<Signature> {
    let header = header_text(pre);
    match find_char(header, '(') {
        None => None,
        Some(open) => match closing_paren(header, open) {
            None => None,
            Some(close) => {
                let tokens = words(header.take(open));
                let return_type = join(tokens.drop_last(), " "@);
                if trim(header.skip(close + 1)).len() > 0 {
                    None
                } else if tokens.len() == 0 || !is_identifier_text(tokens.last())
                    || return_type.len() == 0 {
                    None
                } else {
                    Some(
                        Signature {
                            name: tokens.last(),
                            params: params_of(header.subrange(open + 1, close)),
                            return_type,
                            doc: doc_of(comment_lines(lines(trim_end(pre)))),
                        },
                    )
                }
            },
        },
    }
}

/// Parse the text preceding a function body's `{` into a `FunctionSig`. Returns `None`
/// if it doesn't look like `<return_type> <name>(<params>)`.
pub fn parse_function_header(pre: &str) -> (r: Option<FunctionSig>)
    ensures
        r.deep_view() == header_of(pre@),
{
    let (header_lines, comment_lines) = split_header_and_comment(trimmed_end(pre).as_str());
    let header = trimmed(joined(&header_lines, " ").as_str());
    let chars = chars_of(header.as_str());
    let open_paren = match position_of(chars.as_slice(), '(') {
        Some(open) => open,
        None => {
            return None;
        },
    };
    let close_paren = match find_matching_paren(chars.as_slice(), open_paren) {
        Some(close) => close,
        None => {
            return None;
        },
    };
    let behind = slice_of(chars.as_slice(), close_paren + 1, chars.len());
    assert(behind@ == header@.skip(close_paren + 1));
    if !trimmed(behind.as_str()).as_str().is_empty() {
        return None;
    }
    let before = slice_of(chars.as_slice(), 0, open_paren);
    assert(before@ == header@.take(open_paren as int));
    let mut tokens = words_of(before.as_str());
    let ghost all = deep(tokens@);
    let name = match tokens.pop() {
        Some(name) => name,
        None => {
            return None;
        },
    };
    assert(deep(tokens@) =~= all.drop_last());
    assert(name@ == all.last());
    if !is_identifier(name.as_str()) {
        return None;
    }
    let return_type = joined(&tokens, " ");
    if return_type.as_str().is_empty() {
        return None;
    }
    let inside = slice_of(chars.as_slice(), open_paren + 1, close_paren);
    let params = parse_params(inside.as_str());
    let doc = parse_doc_block(&comment_lines);
    Some(FunctionSig { name, params, return_type, doc })
}

/// `s` is an identifier: a letter or `_`, then letters, digits and `_`, all ASCII.
pub open spec fn is_identifier_text(s: Seq<char>) -> bool {
    &&& s.len() > 0
    &&& is_letter(s[0]) || s[0] == '_'
    &&& forall|i: int| 1 <= i < s.len() ==> is_ident(#[trigger] s[i])
}

/// Whether `s` is an identifier.
pub fn is_identifier(s: &str) -> (r: bool)
    ensures
        r == is_identifier_text(s@),
{
    let chars = chars_of(s);
    if chars.len() == 0 {
        return false;
    }
    let c = chars[0];
    if !(('a' <= c && c <= 'z') || ('A' <= c && c <= 'Z') || c == '_') {
        return false;
    }
    let mut i: usize = 1;
    while i < chars.len()
        invariant
            chars@ == s@,
            1 <= i <= chars@.len(),
            forall|j: int| 1 <= j < i ==> is_ident(#[trigger] s@[j]),
        decreases chars@.len() - i,
    {
        if !is_ident_char(chars[i]) {
            assert(!is_ident(s@[i as int]));
            return false;
        }
        i += 1;
    }
    true
}

/// The position of the `)` that matches the `(` at `open`.
pub fn find_matching_paren(s: &[char], open: usize) -> (r: Option<usize>)
    requires
        open < s@.len(),
        s@[open as int] == '(',
    ensures
        as_position(r) == closing_paren(s@, open as int),
        r matches Some(i) ==> open < i < s@.len(),
{
    let ghost p = closes_paren(s@, open as int);
    let ghost n = s@.len() as int;
    let mut depth: usize = 0;
    let mut i: usize = open;
    while i < s.len()
        invariant
            p == closes_paren(s@, open as int),
            n == s@.len(),
            open <= i <= n,
            s@[open as int] == '(',
            depth == paren_depth(s@, open as int, i as int),
            i > open ==> depth > 0,
            depth <= i - open,
            first_from(p, open as int, n) == first_from(p, i as int, n),
        decreases n - i,
    {
        let c = s[i];
        if c == '(' {
            depth += 1;
        } else if c == ')' {
            depth -= 1;
            if depth == 0 {
                return Some(i);
            }
        }
        i += 1;
    }
    None
}

// Parameters --------------------------------------------------------------

/// The number of `[` among the first `n` characters of `s`, less the number of `]`.
pub open spec fn bracket_depth(s: Seq<char>, n: int) -> int
    decreases n,
{
    if n <= 0 {
        0
    } else {
        bracket_depth(s, n - 1) + if s[n - 1] == '[' {
            1int
        } else if s[n - 1] == ']' {
            -1int
        } else {
            0int
        }
    }
}

/// A position that holds a comma outside of all `[ ]`.
pub open spec fn top_level_comma(s: Seq<char>) -> spec_fn(int) -> bool {
    |i: int| s[i] == ',' && bracket_depth(s, i) == 0
}

/// The stretches of `s` from position `from` on between the commas outside of all `[ ]`.
pub open spec fn chunks_from(s: Seq<char>, from: int) -> Seq<Seq<char>>
    decreases s.len() - from,
{
    proof {
        lemma_first_found(top_level_comma(s), from, s.len() as int);
    }
    match first_from(top_level_comma(s), from, s.len() as int) {
        None => seq![s.skip(from)],
        Some(i) => seq![s.subrange(from, i)] + chunks_from(s, i + 1),
    }
}

/// Split a parameter list on top-level commas, ignoring commas inside `[ ]`
/// array-dimension brackets (e.g. `array[N, M] real x`).
pub fn split_top_level_commas(s: &str) -> (r: Vec<String>)
    ensures
        deep(r@) == chunks_from(s@, 0),
{
    let chars = chars_of(s);
    let ghost p = top_level_comma(s@);
    let ghost n = s@.len() as int;
    let mut out: Vec<String> = Vec::new();
    let mut depth: i128 = 0;
    let mut from: usize = 0;
    let mut i: usize = 0;
    assert(deep(out@) + chunks_from(s@, 0) =~= chunks_from(s@, 0));
    while i < chars.len()
        invariant
            chars@ == s@,
            p == top_level_comma(s@),
            n == s@.len(),
            from <= i <= n,
            depth == bracket_depth(s@, i as int),
            -i <= depth <= i,
            first_from(p, from as int, n) == first_from(p, i as int, n),
            deep(out@) + chunks_from(s@, from as int) == chunks_from(s@, 0),
        decreases n - i,
    {
        let c = chars[i];
        if c == '[' {
            depth += 1;
        } else if c == ']' {
            depth -= 1;
        } else if c == ',' && depth == 0 {
            assert(p(i as int));
            let ghost before = out@;
            out.push(slice_of(chars.as_slice(), from, i));
            assert(deep(out@) + chunks_from(s@, i + 1) =~= deep(before) + chunks_from(
                s@,
                from as int,
            ));
            from = i + 1;
        }
        i += 1;
    }
    let ghost before = out@;
    out.push(slice_of(chars.as_slice(), from, chars.len()));
    assert(deep(out@) =~= deep(before) + chunks_from(s@, from as int));
    out
}

/// The parameter that a chunk of a parameter list declares: the last of its words is the
/// name and those before it are the type. A chunk with no type declares none.
pub open spec fn param_of(chunk: Seq<char>) -> Option<(Seq<char>, Seq<char>)> {
    let tokens = words(trim(chunk));
    if tokens.len() == 0 || join(tokens.drop_last(), " "@).len() == 0 {
        None
    } else {
        Some((tokens.last(), join(tokens.drop_last(), " "@)))
    }
}

/// The parameters that `chunks` declare, in order.
pub open spec fn params_of_chunks(chunks: Seq<Seq<char>>) -> Seq<(Seq<char>, Seq<char>)>
    decreases chunks.len(),
{
    if chunks.len() == 0 {
        seq![]
    } else {
        match param_of(chunks.last()) {
            Some(param) => params_of_chunks(chunks.drop_last()).push(param),
            None => params_of_chunks(chunks.drop_last()),
        }
    }
}

/// The parameters that a parameter list declares.
pub open spec fn params_of(list: Seq<char>) -> Seq<(Seq<char>, Seq<char>)> {
    params_of_chunks(chunks_from(list, 0))
}

/// Parse a parameter list.
pub fn parse_params(params_text: &str) -> (r: Vec<Param>)
    ensures
        deep(r@) == params_of(params_text@),
{
    let chunks = split_top_level_commas(params_text);
    let ghost all = deep(chunks@);
    let mut out: Vec<Param> = Vec::new();
    assert(deep(out@) =~= params_of_chunks(all.take(0)));
    let mut i: usize = 0;
    while i < chunks.len()
        invariant
            all == deep(chunks@),
            i <= chunks@.len(),
            deep(out@) == params_of_chunks(all.take(i as int)),
        decreases chunks@.len() - i,
    {
        let ghost before = out@;
        proof {
            assert(all.take(i + 1).drop_last() =~= all.take(i as int));
            assert(all.take(i + 1).last() == chunks@[i as int]@);
        }
        if let Some(param) = parse_param(chunks[i].as_str()) {
            out.push(param);
            assert(deep(out@) =~= deep(before).push(param.deep_view()));
        }
        i += 1;
    }
    assert(all.take(i as int) =~= all);
    out
}

/// Parse one chunk of a parameter list.
fn parse_param(chunk: &str) -> (r: Option<Param>)
    ensures
        r.deep_view() == param_of(chunk@),
{
    let mut tokens = words_of(trimmed(chunk).as_str());
    let ghost all = deep(tokens@);
    let name = match tokens.pop() {
        Some(name) => name,
        None => {
            return None;
        },
    };
    assert(deep(tokens@) =~= all.drop_last());
    assert(name@ == all.last());
    let ty = joined(&tokens, " ");
    if ty.as_str().is_empty() {
        return None;
    }
    Some((name, ty))
}

/// Split the text between the previous function's `}` and this function's `{` into the
/// header lines (the signature itself, normally one line) and the doc comment lines
/// directly above it, if any.
///
/// A comment block only counts as "directly above" if there is no blank line between its
/// last line and the header.
pub fn split_header_and_comment(text: &str) -> (r: (Vec<String>, Vec<String>))
    ensures
        deep(r.0@) == header_lines(lines(text@)),
        deep(r.1@) == comment_lines(lines(text@)),
{
    let all_lines = lines_of(text);
    let ghost all = lines(text@);
    let n: usize = all_lines.len();
    let mut header_from: usize = n;
    while header_from > 0 && is_header(all_lines[header_from - 1].as_str())
        invariant
            all == deep(all_lines@),
            n == all_lines@.len(),
            header_from <= n,
            header_start(all, n as int) == header_start(all, header_from as int),
        decreases header_from,
    {
        header_from -= 1;
    }
    let mut comment_from: usize = header_from;
    while comment_from > 0 && is_comment(all_lines[comment_from - 1].as_str())
        invariant
            all == deep(all_lines@),
            n == all_lines@.len(),
            comment_from <= header_from <= n,
            comment_start(all, header_from as int) == comment_start(all, comment_from as int),
        decreases comment_from,
    {
        comment_from -= 1;
    }
    (
        slice_texts(&all_lines, header_from, n),
        slice_texts(&all_lines, comment_from, header_from),
    )
}

/// Whether `line` is neither blank nor a comment.
fn is_header(line: &str) -> (r: bool)
    ensures
        r == is_header_line(line@),
{
    let t = trimmed(line);
    !t.as_str().is_empty() && !starts_with(t.as_str(), "//")
}

/// Whether `line` holds a `//` comment and nothing before it.
fn is_comment(line: &str) -> (r: bool)
    ensures
        r == is_comment_line(line@),
{
    starts_with(trimmed(line).as_str(), "//")
}

// Doc comments ------------------------------------------------------------

/// A comment line without the `//` that begins it and one space behind that.
pub open spec fn comment_text(line: Seq<char>) -> Seq<char> {
    let rest = match without_prefix(trim_start(line), "//"@) {
        Some(rest) => rest,
        None => line,
    };
    match without_prefix(rest, " "@) {
        Some(rest) => rest,
        None => rest,
    }
}

/// What a block of comment lines documents: the tags behind a first line that says
/// `@laplace`. Any other comment is an ordinary one and documents nothing.
pub open spec fn doc_of(comments: Seq<Seq<char>>) -> Option<DocText> {
    let stripped = comments.map_values(|line: Seq<char>| comment_text(line));
    if stripped.len() == 0 || trim(stripped[0]) != "@laplace"@ {
        None
    } else {
        Some(doc_state(stripped.skip(1)).0)
    }
}

/// If `comment_lines` is a `// @laplace`-tagged block, parse it into a `Doc`. Any other
/// (untagged) comment block directly above a function is treated as an ordinary comment,
/// not documentation, and yields `None`.
pub fn parse_doc_block(comment_lines: &Vec<String>) -> (r: Option<Doc>)
    ensures
        r.deep_view() == doc_of(deep(comment_lines@)),
{
    let ghost stripped = deep(comment_lines@).map_values(|line: Seq<char>| comment_text(line));
    if comment_lines.len() == 0 {
        return None;
    }
    let first = trimmed(strip_comment_prefix(comment_lines[0].as_str()).as_str());
    assert(first@ == trim(stripped[0]));
    if !same(first.as_str(), "@laplace") {
        return None;
    }
    let mut tag_lines: Vec<String> = Vec::new();
    let mut i: usize = 1;
    while i < comment_lines.len()
        invariant
            stripped == deep(comment_lines@).map_values(|line: Seq<char>| comment_text(line)),
            1 <= i <= comment_lines@.len(),
            deep(tag_lines@) == stripped.subrange(1, i as int),
        decreases comment_lines@.len() - i,
    {
        let ghost before = tag_lines@;
        let text = strip_comment_prefix(comment_lines[i].as_str());
        assert(text@ == stripped[i as int]);
        tag_lines.push(text);
        assert(deep(tag_lines@) =~= deep(before).push(text@));
        i += 1;
    }
    assert(deep(tag_lines@) =~= stripped.skip(1));
    Some(parse_doc_tags(&tag_lines))
}

/// A comment line without the `//` that begins it and one space behind that.
pub fn strip_comment_prefix(line: &str) -> (r: String)
    ensures
        r@ == comment_text(line@),
{
    let rest = match strip_prefix(trimmed_start(line).as_str(), "//") {
        Some(rest) => rest,
        None => line.to_string(),
    };
    match strip_prefix(rest.as_str(), " ") {
        Some(rest) => rest,
        None => rest,
    }
}

/// The tag whose text a line without a tag continues.
pub enum ActiveField {
    Nothing,
    Brief,
    Param,
    Return,
    Math,
    Example,
}

/// `field` with `extra` behind it, and `sep` in between unless `field` is empty.
pub open spec fn continued(field: Seq<char>, sep: char, extra: Seq<char>) -> Seq<char> {
    if field.len() > 0 {
        field.push(sep) + extra
    } else {
        extra
    }
}

/// An optional field with `extra` behind what it holds.
pub open spec fn continued_opt(field: Option<Seq<char>>, sep: char, extra: Seq<char>) -> Option<
    Seq<char>,
> {
    match field {
        Some(text) => Some(continued(text, sep, extra)),
        None => Some(extra),
    }
}

/// The name and the description that the text of a `@param` tag gives.
pub open spec fn param_doc(text: Seq<char>) -> (Seq<char>, Seq<char>) {
    match split_space(text) {
        Some((name, desc)) => (name, trim(desc)),
        None => (text, seq![]),
    }
}

/// What is documented, and which tag is open, behind a further line of a doc comment.
/// The lines of prose are joined by spaces; those of a formula or an example keep their
/// line breaks.
pub open spec fn doc_step(state: (DocText, ActiveField), line: Seq<char>) -> (
    DocText,
    ActiveField,
) {
    let (doc, active) = state;
    if let Some(rest) = without_prefix(line, "@brief"@) {
        (DocText { brief: Some(trim(rest)), ..doc }, ActiveField::Brief)
    } else if let Some(rest) = without_prefix(line, "@param"@) {
        (DocText { params: doc.params.push(param_doc(trim(rest))), ..doc }, ActiveField::Param)
    } else if let Some(rest) = without_prefix(line, "@return"@) {
        (DocText { return_doc: Some(trim(rest)), ..doc }, ActiveField::Return)
    } else if let Some(rest) = without_prefix(line, "@math"@) {
        (DocText { math: Some(trim(rest)), ..doc }, ActiveField::Math)
    } else if let Some(rest) = without_prefix(line, "@example"@) {
        (DocText { example: Some(trim(rest)), ..doc }, ActiveField::Example)
    } else if line.len() == 0 {
        state
    } else {
        match active {
            ActiveField::Brief => (
                DocText { brief: continued_opt(doc.brief, ' ', line), ..doc },
                active,
            ),
            ActiveField::Param => if doc.params.len() > 0 {
                let (name, desc) = doc.params.last();
                (
                    DocText {
                        params: doc.params.drop_last().push((name, continued(desc, ' ', line))),
                        ..doc
                    },
                    active,
                )
            } else {
                state
            },
            ActiveField::Return => (
                DocText { return_doc: continued_opt(doc.return_doc, ' ', line), ..doc },
                active,
            ),
            ActiveField::Math => (
                DocText { math: continued_opt(doc.math, '\n', line), ..doc },
                active,
            ),
            ActiveField::Example => (
                DocText { example: continued_opt(doc.example, '\n', line), ..doc },
                active,
            ),
            ActiveField::Nothing => state,
        }
    }
}

/// What the lines of a doc comment document, and which tag is open behind them.
pub open spec fn doc_state(tag_lines: Seq<Seq<char>>) -> (DocText, ActiveField)
    decreases tag_lines.len(),
{
    if tag_lines.len() == 0 {
        (no_text(), ActiveField::Nothing)
    } else {
        doc_step(doc_state(tag_lines.drop_last()), trim(tag_lines.last()))
    }
}

/// Parse the lines below a `@laplace` tag into a `Doc`.
pub fn parse_doc_tags(tag_lines: &Vec<String>) -> (r: Doc)
    ensures
        r.deep_view() == doc_state(deep(tag_lines@)).0,
{
    let ghost all = deep(tag_lines@);
    let mut doc = Doc::default();
    let mut active = ActiveField::Nothing;
    let mut i: usize = 0;
    while i < tag_lines.len()
        invariant
            all == deep(tag_lines@),
            i <= tag_lines@.len(),
            (doc.deep_view(), active) == doc_state(all.take(i as int)),
        decreases tag_lines@.len() - i,
    {
        let ghost start = (doc.deep_view(), active);
        proof {
            assert(all.take(i + 1).drop_last() =~= all.take(i as int));
            assert(all.take(i + 1).last() == tag_lines@[i as int]@);
        }
        let trimmed_line = trimmed(tag_lines[i].as_str());
        let line = trimmed_line.as_str();
        if let Some(rest) = strip_prefix(line, "@brief") {
            doc.brief = Some(trimmed(rest.as_str()));
            active = ActiveField::Brief;
        } else if let Some(rest) = strip_prefix(line, "@param") {
            let rest = trimmed(rest.as_str());
            let param = match split_at_space(rest.as_str()) {
                Some((name, desc)) => (name, trimmed(desc.as_str())),
                None => (rest, String::new()),
            };
            let ghost before = doc.params@;
            doc.params.push(param);
            assert(param.deep_view() == param_doc(trim(without_prefix(line@, "@param"@)->0)));
            assert(deep(doc.params@) =~= deep(before).push(param.deep_view()));
            active = ActiveField::Param;
        } else if let Some(rest) = strip_prefix(line, "@return") {
            doc.return_doc = Some(trimmed(rest.as_str()));
            active = ActiveField::Return;
        } else if let Some(rest) = strip_prefix(line, "@math") {
            doc.math = Some(trimmed(rest.as_str()));
            active = ActiveField::Math;
        } else if let Some(rest) = strip_prefix(line, "@example") {
            doc.example = Some(trimmed(rest.as_str()));
            active = ActiveField::Example;
        } else if !line.is_empty() {
            match active {
                ActiveField::Brief => append_opt(&mut doc.brief, ' ', line),
                ActiveField::Param => {
                    let ghost before = deep(doc.params@);
                    if let Some((name, desc)) = doc.params.pop() {
                        let mut desc = desc;
                        assert(before.last() == (name@, desc@));
                        append_str(&mut desc, ' ', line);
                        assert(deep(doc.params@) =~= before.drop_last());
                        doc.params.push((name, desc));
                        assert(deep(doc.params@) =~= before.drop_last().push((name@, desc@)));
                    }
                },
                ActiveField::Return => append_opt(&mut doc.return_doc, ' ', line),
                ActiveField::Math => append_opt(&mut doc.math, '\n', line),
                ActiveField::Example => append_opt(&mut doc.example, '\n', line),
                ActiveField::Nothing => {},
            }
        }
        assert((doc.deep_view(), active) == doc_step(start, trim(tag_lines@[i as int]@)));
        i += 1;
    }
    assert(all.take(i as int) =~= all);
    doc
}

/// Put `extra` behind what an optional field holds.
fn append_opt(field: &mut Option<String>, sep: char, extra: &str)
    ensures
        final(field).deep_view() == continued_opt(old(field).deep_view(), sep, extra@),
{
    match field.take() {
        Some(text) => {
            let mut text = text;
            append_str(&mut text, sep, extra);
            *field = Some(text);
        },
        None => {
            *field = Some(extra.to_string());
        },
    }
}

/// Put `extra` behind what a field holds.
fn append_str(field: &mut String, sep: char, extra: &str)
    ensures
        final(field)@ == continued(old(field)@, sep, extra@),
{
    if !field.as_str().is_empty() {
        field.push(sep);
    }
    field.append(extra);
}

} // verus!
