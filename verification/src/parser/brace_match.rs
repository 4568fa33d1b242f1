//! Shared comment- and string-aware brace matching, used wherever a shallow scan
//! has to find a top-level `{ ... }` block without being confused by a stray
//! brace inside a `//` comment or a `"..."` string literal.
//!
//! Used by `signatures` (finding function bodies) and by `codegen` (finding the
//! `functions { }` block and `pkg::func(` call sites).
use vstd::prelude::*;

use crate::text::{as_position, first_from};

verus! {

/// What the scanner is inside of just before a character.
pub enum Lexeme {
    /// Code proper.
    Code,
    /// A `//` comment.
    Comment,
    /// A `"..."` literal.
    Literal,
    /// A `"..."` literal, behind a backslash.
    Escape,
}

/// What the scanner is inside of behind `c`, given the character that follows it.
///
/// Block comments (`/* ... */`) are not handled: the `// @laplace` doc comment
/// convention knows line comments only, and so does most Stan source.
pub open spec fn lex_step(state: Lexeme, c: char, next: Option<char>) -> Lexeme {
    match state {
        Lexeme::Code => if c == '/' && next == Some('/') {
            Lexeme::Comment
        } else if c == '"' {
            Lexeme::Literal
        } else {
            Lexeme::Code
        },
        Lexeme::Comment => if c == '\n' {
            Lexeme::Code
        } else {
            Lexeme::Comment
        },
        Lexeme::Literal => if c == '\\' {
            Lexeme::Escape
        } else if c == '"' {
            Lexeme::Code
        } else {
            Lexeme::Literal
        },
        Lexeme::Escape => Lexeme::Literal,
    }
}

/// The character of `s` at position `i`, if there is one.
pub open spec fn char_at(s: Seq<char>, i: int) -> Option<char> {
    if 0 <= i < s.len() {
        Some(s[i])
    } else {
        None
    }
}

/// What position `i` of `s` is inside of.
pub open spec fn lex_at(s: Seq<char>, i: int) -> Lexeme
    decreases i,
{
    if i <= 0 {
        Lexeme::Code
    } else {
        lex_step(lex_at(s, i - 1), s[i - 1], char_at(s, i))
    }
}

/// The character of `s` at position `i` is real code: it belongs to no `//` comment
/// (its line feed counts as part of it) and to no `"..."` literal (its quotes do).
pub open spec fn is_code(s: Seq<char>, i: int) -> bool {
    &&& lex_at(s, i) is Code
    &&& lex_step(lex_at(s, i), s[i], char_at(s, i + 1)) is Code
}

/// For each position of `s`, whether it holds real code.
pub open spec fn code_mask(s: Seq<char>) -> Seq<bool> {
    Seq::new(s.len(), |i: int| is_code(s, i))
}

/// A position of `s` that is marked and holds `target`.
pub open spec fn marked_char(mask: Seq<bool>, s: Seq<char>, target: char) -> spec_fn(int) -> bool {
    |i: int| mask[i] && s[i] == target
}

/// The first marked position of `s` from `from` on that holds `target`.
pub open spec fn first_marked(mask: Seq<bool>, s: Seq<char>, from: int, target: char) -> Option<
    int,
> {
    first_from(marked_char(mask, s, target), from, s.len() as int)
}

/// The number of marked opening braces of `s` from `open` to before `end`, less the
/// number of marked closing ones.
pub open spec fn brace_depth(mask: Seq<bool>, s: Seq<char>, open: int, end: int) -> int
    decreases end - open,
{
    if end <= open {
        0
    } else {
        brace_depth(mask, s, open, end - 1) + if mask[end - 1] && s[end - 1] == '{' {
            1int
        } else if mask[end - 1] && s[end - 1] == '}' {
            -1int
        } else {
            0int
        }
    }
}

/// A position that holds a marked closing brace with which the depth counted from
/// `open` on is back at zero.
pub open spec fn closes_brace(mask: Seq<bool>, s: Seq<char>, open: int) -> spec_fn(int) -> bool {
    |i: int| mask[i] && s[i] == '}' && brace_depth(mask, s, open, i + 1) == 0
}

/// The closing brace that matches the opening one at `open`.
pub open spec fn closing_brace(mask: Seq<bool>, s: Seq<char>, open: int) -> Option<int> {
    first_from(closes_brace(mask, s, open), open, s.len() as int)
}

/// Marks which positions of a source are real code, as opposed to inside a `//` line
/// comment or a `"..."` string literal. A position is an index into the source's
/// characters.
pub struct CodeMask {
    marks: Vec<bool>,
}

impl View for CodeMask {
    type V = Seq<bool>;

    closed spec fn view(&self) -> Seq<bool> {
        self.marks@
    }
}

impl CodeMask {
    /// The mask of `source`.
    pub fn new(source: &[char]) -> (r: CodeMask)
        ensures
            r@ == code_mask(source@),
    {
        let mut marks: Vec<bool> = Vec::new();
        let mut in_line_comment = false;
        let mut in_string = false;
        let mut escaped = false;
        let mut i: usize = 0;
        while i < source.len()
            invariant
                i <= source@.len(),
                marks@ == code_mask(source@).take(i as int),
                lex_at(source@, i as int) == (if in_line_comment {
                    Lexeme::Comment
                } else if in_string && escaped {
                    Lexeme::Escape
                } else if in_string {
                    Lexeme::Literal
                } else {
                    Lexeme::Code
                }),
                escaped ==> in_string,
                !(in_line_comment && in_string),
            decreases source@.len() - i,
        {
            let c = source[i];
            let mut is_real = false;
            assert(lex_at(source@, i + 1) == lex_step(
                lex_at(source@, i as int),
                c,
                char_at(source@, i + 1),
            ));
            if in_line_comment {
                if c == '\n' {
                    in_line_comment = false;
                }
            } else if escaped {
                escaped = false;
            } else if in_string {
                if c == '\\' {
                    escaped = true;
                } else if c == '"' {
                    in_string = false;
                }
            } else if c == '/' && source.len() - i > 1 && source[i + 1] == '/' {
                in_line_comment = true;
            } else if c == '"' {
                in_string = true;
            } else {
                is_real = true;
            }
            marks.push(is_real);
            i += 1;
        }
        CodeMask { marks }
    }

    /// Whether position `index` holds real code.
    pub fn is_real(&self, index: usize) -> (r: bool)
        requires
            index < self@.len(),
        ensures
            r == self@[index as int],
    {
        self.marks[index]
    }

    /// The first position from `from` on that is real code and holds `target`.
    pub fn find_real(&self, source: &[char], from: usize, target: char) -> (r: Option<usize>)
        requires
            source@.len() <= self@.len(),
        ensures
            as_position(r) == first_marked(self@, source@, from as int, target),
            r matches Some(i) ==> from <= i < source@.len() && self@[i as int] && source@[i as int]
                == target,
    {
        let ghost p = marked_char(self@, source@, target);
        let ghost end = source@.len() as int;
        let mut i: usize = from;
        while i < source.len()
            invariant
                from <= i,
                source@.len() <= self@.len(),
                p == marked_char(self@, source@, target),
                end == source@.len(),
                first_from(p, from as int, end) == first_from(p, i as int, end),
            decreases source@.len() - i,
        {
            if source[i] == target && self.is_real(i) {
                return Some(i);
            }
            i += 1;
        }
        None
    }

    /// The position of the closing brace that matches the opening one at `open_brace`.
    pub fn match_closing_brace(&self, source: &[char], open_brace: usize) -> (r: Option<usize>)
        requires
            source@.len() <= self@.len(),
        ensures
            as_position(r) == closing_brace(self@, source@, open_brace as int),
            r matches Some(i) ==> open_brace <= i < source@.len() <= usize::MAX && self@[i as int]
                && source@[i as int] == '}',
    {
        let ghost p = closes_brace(self@, source@, open_brace as int);
        let ghost end = source@.len() as int;
        let mut depth: i128 = 0;
        let mut i: usize = open_brace;
        while i < source.len()
            invariant
                open_brace <= i,
                source@.len() <= self@.len(),
                p == closes_brace(self@, source@, open_brace as int),
                end == source@.len(),
                depth == brace_depth(self@, source@, open_brace as int, i as int),
                -(i - open_brace) <= depth <= i - open_brace,
                first_from(p, open_brace as int, end) == first_from(p, i as int, end),
            decreases source@.len() - i,
        {
            if self.is_real(i) {
                if source[i] == '{' {
                    depth += 1;
                } else if source[i] == '}' {
                    depth -= 1;
                    if depth == 0 {
                        return Some(i);
                    }
                }
            }
            i += 1;
        }
        None
    }
}

/// `c` is an ASCII letter.
pub open spec fn is_letter(c: char) -> bool {
    'a' <= c <= 'z' || 'A' <= c <= 'Z'
}

/// `c` is an ASCII digit.
pub open spec fn is_digit(c: char) -> bool {
    '0' <= c <= '9'
}

/// `c` can stand in an identifier: an ASCII letter, an ASCII digit or `_`.
pub open spec fn is_ident(c: char) -> bool {
    is_letter(c) || is_digit(c) || c == '_'
}

/// Whether `c` can stand in an identifier.
pub fn is_ident_char(c: char) -> (r: bool)
    ensures
        r == is_ident(c),
{
    ('a' <= c && c <= 'z') || ('A' <= c && c <= 'Z') || ('0' <= c && c <= '9') || c == '_'
}

} // verus!
