//! `pkg::func` -> `pkg__func` mangling and call-site rewriting.
use std::ops::Range;
use vstd::prelude::*;
use vstd::string::*;

use crate::parser::brace_match::{code_mask, is_code, is_ident, is_ident_char, CodeMask};
use crate::text::{
    after_space, as_position, byte_offset, byte_offset_of, chars_of, concat3, deep, first_from,
    lemma_first_found, matches_at, occurs_at, skip_space, slice_of,
};

verus! {

/// The Stan-safe form of a package-qualified function name.
pub open spec fn mangled(package: Seq<char>, func: Seq<char>) -> Seq<char> {
    package + "__"@ + func
}

/// Mangle a package-qualified function name into its Stan-safe form.
pub fn mangle(package: &str, func: &str) -> (r: String)
    ensures
        r@ == mangled(package@, func@),
{
    concat3(package, "__", func)
}

/// Behind the white space that starts at position `i` of `s` stands a `(`.
pub open spec fn opens_call(s: Seq<char>, i: int) -> bool {
    skip_space(s, i) < s.len() && s[skip_space(s, i)] == '('
}

/// Whether a `(` stands behind the white space that starts at position `i`.
fn is_call_open(s: &[char], i: usize) -> (r: bool)
    requires
        i <= s@.len(),
    ensures
        r == opens_call(s@, i as int),
{
    let k = after_space(s, i);
    k < s.len() && s[k] == '('
}

/// The text of `s` from `start` to before `end` borders on no identifier character.
pub open spec fn is_whole_word(s: Seq<char>, start: int, end: int) -> bool {
    &&& start == 0 || !is_ident(s[start - 1])
    &&& end == s.len() || !is_ident(s[end])
}

/// Whether the text of `s` from `start` to before `end` borders on no identifier
/// character.
pub fn borders_no_word(s: &[char], start: usize, end: usize) -> (r: bool)
    requires
        start <= end <= s@.len(),
    ensures
        r == is_whole_word(s@, start as int, end as int),
{
    (start == 0 || !is_ident_char(s[start - 1])) && (end == s.len() || !is_ident_char(s[end]))
}

/// Position `i` of `s` begins a whole-word occurrence of `name` in real code that is
/// followed by optional white space and a `(`.
pub open spec fn is_call_site(s: Seq<char>, name: Seq<char>, i: int) -> bool {
    &&& occurs_at(s, name, i)
    &&& is_code(s, i)
    &&& is_whole_word(s, i, i + name.len())
    &&& opens_call(s, i + name.len())
}

/// The text of `s` from position `i` on with `replacement` in place of `name` at each
/// call site, these taken from the left.
pub open spec fn renamed_from(
    s: Seq<char>,
    name: Seq<char>,
    replacement: Seq<char>,
    i: int,
) -> Seq<char>
    decreases s.len() - i,
{
    if i >= s.len() || i < 0 {
        seq![]
    } else if name.len() > 0 && is_call_site(s, name, i) {
        replacement + renamed_from(s, name, replacement, i + name.len())
    } else {
        seq![s[i]] + renamed_from(s, name, replacement, i + 1)
    }
}

/// `s` with `replacement` in place of `name` at each call site. An empty name has none.
pub open spec fn renamed(s: Seq<char>, name: Seq<char>, replacement: Seq<char>) -> Seq<char> {
    renamed_from(s, name, replacement, 0)
}

/// Replace every whole-word occurrence of `name` immediately followed by (optional
/// white space and then) `(` with `replacement`, leaving everything else -- the `(`
/// itself and any white space before it included -- untouched. This reaches a function
/// both at its definition and at its call sites.
///
/// Ignores occurrences inside `//` comments or `"..."` string literals.
pub fn rename_identifier_calls(source: &str, name: &str, replacement: &str) -> (r: String)
    ensures
        r@ == renamed(source@, name@, replacement@),
{
    let chars = chars_of(source);
    let name_chars = chars_of(name);
    let mask = CodeMask::new(chars.as_slice());
    let mut out = String::new();
    let mut i: usize = 0;
    while i < chars.len()
        invariant
            chars@ == source@,
            name_chars@ == name@,
            mask@ == code_mask(source@),
            i <= chars@.len(),
            out@ + renamed_from(source@, name@, replacement@, i as int) == renamed(
                source@,
                name@,
                replacement@,
            ),
        decreases chars@.len() - i,
    {
        let ghost before = out@;
        if name_chars.len() > 0 && mask.is_real(i) && matches_at(
            chars.as_slice(),
            name_chars.as_slice(),
            i,
        ) && borders_no_word(chars.as_slice(), i, i + name_chars.len()) && is_call_open(
            chars.as_slice(),
            i + name_chars.len(),
        ) {
            assert(is_call_site(source@, name@, i as int));
            out.append(replacement);
            assert(before + renamed_from(source@, name@, replacement@, i as int) =~= out@
                + renamed_from(source@, name@, replacement@, i + name@.len()));
            i += name_chars.len();
        } else {
            assert(name@.len() == 0 || !is_call_site(source@, name@, i as int));
            out.push(chars[i]);
            assert(before + renamed_from(source@, name@, replacement@, i as int) =~= out@
                + renamed_from(source@, name@, replacement@, i + 1));
            i += 1;
        }
    }
    assert(out@ + renamed_from(source@, name@, replacement@, i as int) =~= out@);
    out
}

/// One of `names` is called at position `i` of `s`. An empty name is called nowhere.
pub open spec fn called_at(s: Seq<char>, names: Seq<Seq<char>>, i: int) -> spec_fn(int) -> bool {
    |k: int| names[k].len() > 0 && is_call_site(s, names[k], i)
}

/// The first of `names` that is called at position `i` of `s`.
pub open spec fn callee(s: Seq<char>, names: Seq<Seq<char>>, i: int) -> Option<int> {
    first_from(called_at(s, names, i), 0, names.len() as int)
}

/// The text of `s` from position `i` on with each of `names` replaced, at its call sites in
/// `s`, by the one of `texts` in the same place.
pub open spec fn replaced_from(
    s: Seq<char>,
    names: Seq<Seq<char>>,
    texts: Seq<Seq<char>>,
    i: int,
) -> Seq<char>
    decreases s.len() - i,
{
    proof {
        lemma_first_found(called_at(s, names, i), 0, names.len() as int);
    }
    if i >= s.len() || i < 0 {
        seq![]
    } else {
        match callee(s, names, i) {
            Some(k) => texts[k] + replaced_from(s, names, texts, i + names[k].len()),
            None => seq![s[i]] + replaced_from(s, names, texts, i + 1),
        }
    }
}

/// `s` with each of `names` replaced, at its call sites in `s`, by the one of `texts` in the
/// same place. What is put in is not looked at again.
pub open spec fn replaced(
    s: Seq<char>,
    names: Seq<Seq<char>>,
    texts: Seq<Seq<char>>,
) -> Seq<char> {
    replaced_from(s, names, texts, 0)
}

/// The first of `names` that is called at position `i`.
fn find_callee(chars: &[char], mask: &CodeMask, names: &Vec<String>, i: usize) -> (r: Option<usize>)
    requires
        mask@ == code_mask(chars@),
        i < chars@.len(),
    ensures
        as_position(r) == callee(chars@, deep(names@), i as int),
        r matches Some(k) ==> k < names@.len() && 0 < names@[k as int]@.len() && i
            + names@[k as int]@.len() <= chars@.len(),
{
    let ghost all = deep(names@);
    let ghost p = called_at(chars@, all, i as int);
    let ghost n = all.len() as int;
    let total: usize = chars.len();
    let mut k: usize = 0;
    while k < names.len()
        invariant
            mask@ == code_mask(chars@),
            i < total == chars@.len(),
            all == deep(names@),
            p == called_at(chars@, all, i as int),
            n == all.len(),
            k <= n,
            first_from(p, 0, n) == first_from(p, k as int, n),
        decreases n - k,
    {
        let name = chars_of(names[k].as_str());
        assert(all[k as int] == name@);
        if name.len() > 0 && mask.is_real(i) && matches_at(chars, name.as_slice(), i)
            && borders_no_word(chars, i, i + name.len()) && is_call_open(chars, i + name.len()) {
            assert(p(k as int));
            return Some(k);
        }
        assert(!p(k as int));
        k += 1;
    }
    None
}

/// Replace each of `names`, at its call sites in `source`, by the one of `replacements` in the
/// same place, in one pass: what is put in is not looked at again. Used to mangle all that a
/// package exports, at the definitions and at any call sites within the package's own source.
///
/// Ignores occurrences inside `//` comments or `"..."` string literals.
pub fn rename_all_calls(source: &str, names: &Vec<String>, replacements: &Vec<String>) -> (r:
    String)
    requires
        names@.len() == replacements@.len(),
    ensures
        r@ == replaced(source@, deep(names@), deep(replacements@)),
{
    let chars = chars_of(source);
    let mask = CodeMask::new(chars.as_slice());
    let ghost from = deep(names@);
    let ghost to = deep(replacements@);
    let mut out = String::new();
    let mut i: usize = 0;
    while i < chars.len()
        invariant
            chars@ == source@,
            mask@ == code_mask(source@),
            names@.len() == replacements@.len(),
            from == deep(names@),
            to == deep(replacements@),
            i <= chars@.len(),
            out@ + replaced_from(source@, from, to, i as int) == replaced(source@, from, to),
        decreases chars@.len() - i,
    {
        let ghost before = out@;
        match find_callee(chars.as_slice(), &mask, names, i) {
            Some(k) => {
                assert(from[k as int] == names@[k as int]@);
                assert(to[k as int] == replacements@[k as int]@);
                out.append(replacements[k].as_str());
                let n: usize = chars_of(names[k].as_str()).len();
                assert(before + replaced_from(source@, from, to, i as int) =~= out@
                    + replaced_from(source@, from, to, i + n));
                i += n;
            },
            None => {
                out.push(chars[i]);
                assert(before + replaced_from(source@, from, to, i as int) =~= out@
                    + replaced_from(source@, from, to, i + 1));
                i += 1;
            },
        }
    }
    assert(out@ + replaced_from(source@, from, to, i as int) =~= out@);
    out
}

/// One `package::func(` call site found in a source text.
#[derive(Debug, PartialEq, Eq)]
pub struct QualifiedCall {
    pub package: String,
    pub func: String,
    /// Byte range of the `package::func` text itself (not including the `(`).
    pub range: Range<usize>,
}

impl Clone for QualifiedCall {
    fn clone(&self) -> (r: Self)
        ensures
            r == *self,
    {
        QualifiedCall {
            package: self.package.clone(),
            func: self.func.clone(),
            range: self.range.start..self.range.end,
        }
    }
}

/// A `package::func` call site: its two names and its range in characters.
#[verifier::ext_equal]
pub struct CallSite {
    pub package: Seq<char>,
    pub func: Seq<char>,
    pub start: int,
    pub end: int,
}

/// The start of the longest run of identifier characters in real code that ends before
/// position `i` of `s`.
pub open spec fn ident_start(s: Seq<char>, i: int) -> int
    decreases i,
{
    if 0 < i <= s.len() && is_ident(s[i - 1]) && is_code(s, i - 1) {
        ident_start(s, i - 1)
    } else {
        i
    }
}

/// The end of the longest run of identifier characters in real code that begins at
/// position `i` of `s`.
pub open spec fn ident_end(s: Seq<char>, i: int) -> int
    decreases s.len() - i,
{
    if 0 <= i < s.len() && is_ident(s[i]) && is_code(s, i) {
        ident_end(s, i + 1)
    } else {
        i
    }
}

/// The run of identifier characters around a position lies inside the text.
pub proof fn lemma_ident_run(s: Seq<char>, i: int)
    requires
        0 <= i <= s.len(),
    ensures
        0 <= ident_start(s, i) <= i <= ident_end(s, i) <= s.len(),
        forall|j: int| ident_start(s, i) <= j < ident_end(s, i) ==> is_ident(#[trigger] s[j]),
    decreases i,
{
    lemma_ident_end(s, i);
    if 0 < i && is_ident(s[i - 1]) && is_code(s, i - 1) {
        lemma_ident_run(s, i - 1);
    }
}

/// A run of identifier characters ends inside the text.
pub proof fn lemma_ident_end(s: Seq<char>, i: int)
    requires
        0 <= i <= s.len(),
    ensures
        i <= ident_end(s, i) <= s.len(),
        forall|j: int| i <= j < ident_end(s, i) ==> is_ident(#[trigger] s[j]),
    decreases s.len() - i,
{
    if i < s.len() && is_ident(s[i]) && is_code(s, i) {
        lemma_ident_end(s, i + 1);
    }
}

/// Position `i` of `s` holds the `::` of an `identifier::identifier(` in real code.
pub open spec fn is_qualifier(s: Seq<char>, i: int) -> bool {
    &&& 0 <= i
    &&& i + 1 < s.len()
    &&& is_code(s, i)
    &&& s[i] == ':'
    &&& s[i + 1] == ':'
    &&& ident_start(s, i) < i
    &&& i + 2 < ident_end(s, i + 2)
    &&& opens_call(s, ident_end(s, i + 2))
}

/// The call site around the `::` at position `i` of `s`.
pub open spec fn call_site(s: Seq<char>, i: int) -> CallSite {
    CallSite {
        package: s.subrange(ident_start(s, i), i),
        func: s.subrange(i + 2, ident_end(s, i + 2)),
        start: ident_start(s, i),
        end: ident_end(s, i + 2),
    }
}

/// The call sites of `s` whose `::` stands before position `n`, in order.
pub open spec fn call_sites_before(s: Seq<char>, n: int) -> Seq<CallSite>
    decreases n,
{
    if n <= 0 {
        seq![]
    } else if is_qualifier(s, n - 1) {
        call_sites_before(s, n - 1).push(call_site(s, n - 1))
    } else {
        call_sites_before(s, n - 1)
    }
}

/// The call sites of `s`, in order.
pub open spec fn call_sites(s: Seq<char>) -> Seq<CallSite> {
    call_sites_before(s, s.len() as int)
}

/// `call` is the call site `site` of `s`, its range given in bytes.
pub open spec fn denotes_site(call: QualifiedCall, s: Seq<char>, site: CallSite) -> bool {
    &&& call.package@ == site.package
    &&& call.func@ == site.func
    &&& call.range.start == byte_offset(s, site.start)
    &&& call.range.end == byte_offset(s, site.end)
}

/// A stretch in which no call site has its `::` adds no call site.
proof fn lemma_no_qualifier(s: Seq<char>, from: int, to: int)
    requires
        0 <= from <= to <= s.len(),
        forall|j: int| from <= j < to ==> !is_qualifier(s, j),
    ensures
        call_sites_before(s, to) == call_sites_before(s, from),
    decreases to - from,
{
    if from < to {
        lemma_no_qualifier(s, from, to - 1);
    }
}

/// A call site found in a source, its range given in characters.
pub struct Site {
    pub package: String,
    pub func: String,
    pub start: usize,
    pub end: usize,
}

impl DeepView for Site {
    type V = CallSite;

    open spec fn deep_view(&self) -> CallSite {
        CallSite {
            package: self.package@,
            func: self.func@,
            start: self.start as int,
            end: self.end as int,
        }
    }
}

/// The call sites of `chars`, in order.
pub fn find_call_sites(chars: &[char]) -> (r: Vec<Site>)
    ensures
        deep(r@) == call_sites(chars@),
        forall|k: int|
            0 <= k < r@.len() ==> (#[trigger] r@[k]).start <= r@[k].end <= chars@.len(),
{
    let mask = CodeMask::new(chars);
    let mut out: Vec<Site> = Vec::new();
    let mut i: usize = 0;
    assert(deep(out@) =~= call_sites_before(chars@, 0));
    while i < chars.len() && chars.len() - i > 1
        invariant
            mask@ == code_mask(chars@),
            i <= chars@.len(),
            deep(out@) == call_sites_before(chars@, i as int),
            forall|k: int|
                0 <= k < out@.len() ==> (#[trigger] out@[k]).start <= out@[k].end <= chars@.len(),
        decreases chars@.len() - i,
    {
        if mask.is_real(i) && chars[i] == ':' && chars[i + 1] == ':' {
            let mut pkg_start: usize = i;
            while pkg_start > 0 && is_ident_char(chars[pkg_start - 1]) && mask.is_real(
                pkg_start - 1,
            )
                invariant
                    mask@ == code_mask(chars@),
                    pkg_start <= i < chars@.len(),
                    ident_start(chars@, i as int) == ident_start(chars@, pkg_start as int),
                decreases pkg_start,
            {
                pkg_start -= 1;
            }
            let func_start: usize = i + 2;
            let mut func_end: usize = func_start;
            while func_end < chars.len() && is_ident_char(chars[func_end]) && mask.is_real(func_end)
                invariant
                    mask@ == code_mask(chars@),
                    func_start <= func_end <= chars@.len(),
                    ident_end(chars@, func_start as int) == ident_end(chars@, func_end as int),
                decreases chars@.len() - func_end,
            {
                func_end += 1;
            }
            if pkg_start < i && func_start < func_end && is_call_open(chars, func_end) {
                let ghost before = out@;
                let site = Site {
                    package: slice_of(chars, pkg_start, i),
                    func: slice_of(chars, func_start, func_end),
                    start: pkg_start,
                    end: func_end,
                };
                out.push(site);
                proof {
                    assert(is_qualifier(chars@, i as int));
                    assert(site.deep_view() =~= call_site(chars@, i as int));
                    assert(deep(out@) =~= deep(before).push(site.deep_view()));
                    lemma_ident_end(chars@, func_start as int);
                    lemma_no_qualifier(chars@, i + 1, func_end as int);
                }
                i = func_end;
                continue;
            }
        }
        assert(!is_qualifier(chars@, i as int));
        i += 1;
    }
    proof {
        lemma_no_qualifier(chars@, i as int, chars@.len() as int);
    }
    out
}

/// Find every `identifier::identifier(` occurrence in `source`, ignoring matches
/// inside `//` comments or `"..."` string literals.
pub fn find_qualified_calls(source: &str) -> (r: Vec<QualifiedCall>)
    ensures
        r@.len() == call_sites(source@).len(),
        forall|k: int|
            0 <= k < r@.len() ==> denotes_site(
                #[trigger] r@[k],
                source@,
                call_sites(source@)[k],
            ),
{
    let chars = chars_of(source);
    let sites = find_call_sites(chars.as_slice());
    let mut out: Vec<QualifiedCall> = Vec::new();
    let mut i: usize = 0;
    while i < sites.len()
        invariant
            chars@ == source@,
            deep(sites@) == call_sites(source@),
            i == out@.len() <= sites@.len(),
            forall|k: int|
                0 <= k < sites@.len() ==> (#[trigger] sites@[k]).start <= sites@[k].end
                    <= chars@.len(),
            forall|k: int|
                0 <= k < out@.len() ==> denotes_site(
                    #[trigger] out@[k],
                    source@,
                    call_sites(source@)[k],
                ),
        decreases sites@.len() - i,
    {
        let site = &sites[i];
        assert(call_sites(source@)[i as int] == site.deep_view());
        let start = byte_offset_of(source, chars.as_slice(), site.start);
        let end = byte_offset_of(source, chars.as_slice(), site.end);
        out.push(
            QualifiedCall {
                package: site.package.clone(),
                func: site.func.clone(),
                range: start..end,
            },
        );
        i += 1;
    }
    assert(sites@.len() == call_sites(source@).len());
    out
}

} // verus!
