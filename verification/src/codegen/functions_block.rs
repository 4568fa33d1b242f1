//! Finding the user's own `functions { }` block.
use vstd::prelude::*;

use crate::codegen::rename::{borders_no_word, is_whole_word};
use crate::parser::brace_match::{closing_brace, code_mask, is_code, CodeMask};
use crate::text::{
    after_space, as_position, chars_of, first_from, matches_at, occurs_at, skip_space,
};

verus! {

/// Position `i` of `s` begins the whole word `functions` in real code, behind which,
/// possibly after white space, a `{` of real code stands that is closed again.
pub open spec fn is_functions_header(s: Seq<char>, i: int) -> bool {
    let brace = functions_brace(s, i);
    &&& occurs_at(s, "functions"@, i)
    &&& is_code(s, i)
    &&& is_whole_word(s, i, i + "functions"@.len())
    &&& brace < s.len()
    &&& s[brace] == '{'
    &&& is_code(s, brace)
    &&& closing_brace(code_mask(s), s, brace) is Some
}

/// The first position behind the word `functions` at `i` that holds no white space.
pub open spec fn functions_brace(s: Seq<char>, i: int) -> int {
    skip_space(s, i + "functions"@.len())
}

/// A position that begins the header of a `functions` block.
pub open spec fn functions_header(s: Seq<char>) -> spec_fn(int) -> bool {
    |i: int| is_functions_header(s, i)
}

/// The opening brace of the first `functions { }` block of `s`.
pub open spec fn functions_block(s: Seq<char>) -> Option<int> {
    match first_from(functions_header(s), 0, s.len() as int) {
        Some(i) => Some(functions_brace(s, i)),
        None => None,
    }
}

/// Find the user's own `functions { }` block, if present. Returns the position of its
/// opening brace.
pub fn find_functions_block(source: &[char]) -> (r: Option<usize>)
    ensures
        as_position(r) == functions_block(source@),
        r matches Some(open) ==> open < source@.len() <= usize::MAX,
{
    let mask = CodeMask::new(source);
    let ghost p = functions_header(source@);
    let ghost n = source@.len() as int;
    let word = chars_of("functions");
    let mut i: usize = 0;
    while i < source.len()
        invariant
            mask@ == code_mask(source@),
            p == functions_header(source@),
            n == source@.len(),
            word@ == "functions"@,
            i <= n,
            first_from(p, 0, n) == first_from(p, i as int, n),
        decreases n - i,
    {
        if mask.is_real(i) && matches_at(source, word.as_slice(), i) && borders_no_word(
            source,
            i,
            i + word.len(),
        ) {
            let open = after_space(source, i + word.len());
            if open < source.len() && source[open] == '{' && mask.is_real(open)
                && mask.match_closing_brace(source, open).is_some() {
                assert(p(i as int));
                return Some(open);
            }
        }
        assert(!p(i as int));
        i += 1;
    }
    None
}

} // verus!
