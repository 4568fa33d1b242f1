//! Renaming functions where they are defined and called.
use vstd::prelude::*;

use crate::codegen::{block_imports, compiled, Package};
use crate::codegen::imports::{first_undefined, imported, undefined_export};
use crate::codegen::mangling::{claims, mangled_names, package_code, Claim};
use crate::codegen::rename::{
    called_at, callee, is_call_site, mangled, opens_call, renamed, renamed_from, replaced,
    replaced_from,
};
use crate::laws::compiling::{law_mangled_names_are_unique, law_mangling_tells_functions_apart};
use crate::order::{lemma_ranked_permutes, ranked};
use crate::parser::brace_match::{
    closes_brace, closing_brace, code_mask, first_marked, is_ident, is_letter, lex_at, marked_char,
};
use crate::parser::library_block::{is_package_char, is_package_name, Library};
use crate::parser::signatures::{header_of, is_identifier_text, signatures_from, signatures_of};
use crate::text::{is_space, lemma_first_found, occurs_at};

verus! {

// One name ----------------------------------------------------------------

/// A source in which a name is nowhere called is not changed by renaming it.
pub proof fn law_renaming_changes_calls_only(
    s: Seq<char>,
    name: Seq<char>,
    replacement: Seq<char>,
)
    requires
        forall|i: int| 0 <= i < s.len() ==> !is_call_site(s, name, i),
    ensures
        renamed(s, name, replacement) == s,
{
    lemma_rename_nothing(s, name, replacement, 0);
    assert(s.skip(0) =~= s);
}

/// Renaming from a position on changes nothing where there are no calls.
proof fn lemma_rename_nothing(s: Seq<char>, name: Seq<char>, replacement: Seq<char>, i: int)
    requires
        0 <= i <= s.len(),
        forall|j: int| 0 <= j < s.len() ==> !is_call_site(s, name, j),
    ensures
        renamed_from(s, name, replacement, i) == s.skip(i),
    decreases s.len() - i,
{
    if i < s.len() {
        lemma_rename_nothing(s, name, replacement, i + 1);
        assert(seq![s[i]] + s.skip(i + 1) =~= s.skip(i));
    }
}

/// Renaming a function to its own name changes nothing.
pub proof fn law_renaming_to_itself_changes_nothing(s: Seq<char>, name: Seq<char>)
    ensures
        renamed(s, name, name) == s,
{
    lemma_rename_same(s, name, 0);
    assert(s.skip(0) =~= s);
}

/// Renaming to the same name from a position on changes nothing.
proof fn lemma_rename_same(s: Seq<char>, name: Seq<char>, i: int)
    requires
        0 <= i <= s.len(),
    ensures
        renamed_from(s, name, name, i) == s.skip(i),
    decreases s.len() - i,
{
    if i < s.len() {
        if name.len() > 0 && is_call_site(s, name, i) {
            lemma_rename_same(s, name, i + name.len());
            assert(name + s.skip(i + name.len()) =~= s.skip(i)) by {
                assert(s.subrange(i, i + name.len()) == name);
                assert(s.skip(i) =~= s.subrange(i, i + name.len()) + s.skip(i + name.len()));
            }
        } else {
            lemma_rename_same(s, name, i + 1);
            assert(seq![s[i]] + s.skip(i + 1) =~= s.skip(i));
        }
    }
}

/// The number of call sites of `name` in `s` that begin at `from` or later and end at `to` or
/// before.
pub open spec fn calls_between(s: Seq<char>, name: Seq<char>, from: int, to: int) -> int
    decreases to - from,
{
    if to - from < name.len() || to <= from {
        0
    } else {
        calls_between(s, name, from + 1, to) + if is_call_site(s, name, from) {
            1int
        } else {
            0int
        }
    }
}

/// No call site of `name` has position `i` inside of it.
spec fn between_calls(s: Seq<char>, name: Seq<char>, i: int) -> bool {
    forall|j: int| #[trigger] is_call_site(s, name, j) ==> !(j < i < j + name.len())
}

/// Renaming an identifier leaves everything but its call sites as it is -- what stands in
/// comments and string literals, other words, the `(` and the white space before it: each such
/// character is in the result, moved by as much as the calls before it grew or shrank.
pub proof fn law_renaming_keeps_the_rest(
    s: Seq<char>,
    name: Seq<char>,
    replacement: Seq<char>,
    i: int,
)
    requires
        is_identifier_text(name),
        0 <= i < s.len(),
        forall|j: int|
            #[trigger] is_call_site(s, name, j) ==> !(j <= i < j + name.len()),
    ensures
        ({
            let out = renamed(s, name, replacement);
            let at = i + calls_between(s, name, 0, i) * (replacement.len() - name.len());
            0 <= at < out.len() && out[at] == s[i]
        }),
{
    lemma_rename_keeps(s, name, replacement, 0, i);
}

/// Renaming from a position on keeps each character behind it that is in no call.
proof fn lemma_rename_keeps(
    s: Seq<char>,
    name: Seq<char>,
    replacement: Seq<char>,
    from: int,
    i: int,
)
    requires
        is_identifier_text(name),
        0 <= from <= i < s.len(),
        between_calls(s, name, from),
        forall|j: int|
            #[trigger] is_call_site(s, name, j) ==> !(j <= i < j + name.len()),
    ensures
        ({
            let out = renamed_from(s, name, replacement, from);
            let at = i - from + calls_between(s, name, from, i) * (replacement.len()
                - name.len());
            0 <= at < out.len() && out[at] == s[i]
        }),
    decreases s.len() - from,
{
    let d = replacement.len() - name.len();
    let n = name.len() as int;
    if is_call_site(s, name, from) {
        let next = from + n;
        assert(next <= i);
        assert(between_calls(s, name, next)) by {
            assert forall|j: int| #[trigger] is_call_site(s, name, j) implies !(j < next < j
                + n) by {
                if from < j < next {
                    assert(s.subrange(from, from + n)[j - 1 - from] == name[j - 1 - from]);
                    assert(is_ident(s[j - 1]));
                }
                if j < from && next < j + n {
                    assert(j < from < j + n);
                }
            }
        }
        lemma_rename_keeps(s, name, replacement, next, i);
        lemma_calls_between_skip(s, name, from, next, i);
        let k = calls_between(s, name, next, i);
        assert((k + 1) * d == k * d + d) by (nonlinear_arith);
        let tail = renamed_from(s, name, replacement, next);
        let at = i - next + k * d;
        assert((replacement + tail)[replacement.len() + at] == tail[at]);
    } else {
        if from == i {
            assert(calls_between(s, name, i, i) == 0);
            assert(0 * d == 0) by (nonlinear_arith);
        } else {
            assert(between_calls(s, name, from + 1)) by {
                assert forall|j: int| #[trigger] is_call_site(s, name, j) implies !(j < from + 1
                    < j + n) by {
                    if j < from + 1 {
                        assert(j != from);
                        assert(!(j < from < j + n));
                    }
                }
            }
            lemma_rename_keeps(s, name, replacement, from + 1, i);
            lemma_calls_between_step(s, name, from, i);
            let tail = renamed_from(s, name, replacement, from + 1);
            let at = i - from - 1 + calls_between(s, name, from + 1, i) * d;
            assert((seq![s[from]] + tail)[1 + at] == tail[at]);
        }
    }
}

/// Renaming an identifier reaches each of its call sites, its definition among them: there the
/// replacement stands in the result, moved by as much as the calls before it grew or shrank.
pub proof fn law_renaming_reaches_every_call(
    s: Seq<char>,
    name: Seq<char>,
    replacement: Seq<char>,
    i: int,
)
    requires
        is_identifier_text(name),
        is_call_site(s, name, i),
    ensures
        occurs_at(
            renamed(s, name, replacement),
            replacement,
            i + calls_between(s, name, 0, i) * (replacement.len() - name.len()),
        ),
{
    lemma_rename_reaches(s, name, replacement, 0, i);
}

/// Renaming from a position on reaches each call site behind it.
proof fn lemma_rename_reaches(
    s: Seq<char>,
    name: Seq<char>,
    replacement: Seq<char>,
    from: int,
    i: int,
)
    requires
        is_identifier_text(name),
        0 <= from <= i < s.len(),
        is_call_site(s, name, i),
    ensures
        occurs_at(
            renamed_from(s, name, replacement, from),
            replacement,
            i - from + calls_between(s, name, from, i) * (replacement.len() - name.len()),
        ),
    decreases s.len() - from,
{
    let d = replacement.len() - name.len();
    let n = name.len() as int;
    let m = replacement.len() as int;
    let out = renamed_from(s, name, replacement, from);
    if from == i {
        assert(calls_between(s, name, i, i) == 0);
        assert(0 * d == 0) by (nonlinear_arith);
        assert(out.subrange(0, m) =~= replacement);
    } else if is_call_site(s, name, from) {
        let next = from + n;
        if i < next {
            assert(s.subrange(from, from + n)[i - 1 - from] == name[i - 1 - from]);
            assert(is_ident(s[i - 1]));
        }
        lemma_rename_reaches(s, name, replacement, next, i);
        lemma_calls_between_skip(s, name, from, next, i);
        let k = calls_between(s, name, next, i);
        assert((k + 1) * d == k * d + d) by (nonlinear_arith);
        let tail = renamed_from(s, name, replacement, next);
        let at = i - next + k * d;
        assert(out.subrange(m + at, m + at + m) =~= tail.subrange(at, at + m));
    } else {
        lemma_rename_reaches(s, name, replacement, from + 1, i);
        lemma_calls_between_step(s, name, from, i);
        let tail = renamed_from(s, name, replacement, from + 1);
        let at = i - from - 1 + calls_between(s, name, from + 1, i) * d;
        assert(out.subrange(1 + at, 1 + at + m) =~= tail.subrange(at, at + m));
    }
}

/// Where no call begins, the count does not change.
proof fn lemma_calls_between_step(s: Seq<char>, name: Seq<char>, from: int, to: int)
    requires
        from < to,
        !is_call_site(s, name, from),
        name.len() > 0,
    ensures
        calls_between(s, name, from, to) == calls_between(s, name, from + 1, to),
{
    if to - from < name.len() {
        assert(calls_between(s, name, from + 1, to) == 0);
    }
}

/// Inside a call no other begins.
proof fn lemma_calls_between_skip(s: Seq<char>, name: Seq<char>, from: int, next: int, to: int)
    requires
        is_identifier_text(name),
        0 <= from,
        is_call_site(s, name, from),
        next == from + name.len(),
        next <= to,
    ensures
        calls_between(s, name, from, to) == calls_between(s, name, next, to) + 1,
{
    lemma_calls_between_inside(s, name, from, from + 1, to);
}

/// A call is counted where it begins.
proof fn lemma_calls_between_inside(s: Seq<char>, name: Seq<char>, from: int, j: int, to: int)
    requires
        is_identifier_text(name),
        0 <= from < j <= from + name.len() <= to,
        is_call_site(s, name, from),
    ensures
        calls_between(s, name, j, to) == calls_between(s, name, from + name.len(), to),
    decreases from + name.len() - j,
{
    if j < from + name.len() {
        assert(s.subrange(from, from + name.len())[j - 1 - from] == name[j - 1 - from]);
        assert(is_ident(s[j - 1]));
        assert(!is_call_site(s, name, j));
        lemma_calls_between_step(s, name, j, to);
        lemma_calls_between_inside(s, name, from, j + 1, to);
    }
}

// The scan ----------------------------------------------------------------

/// `s` is a word: not empty, and of identifier characters only.
pub open spec fn is_word(s: Seq<char>) -> bool {
    s.len() > 0 && forall|i: int| 0 <= i < s.len() ==> is_ident(#[trigger] s[i])
}

/// `s` can stand where a word stood: it is of characters of package names, and ends with an
/// identifier character.
pub open spec fn is_plain_name(s: Seq<char>) -> bool {
    &&& s.len() > 0
    &&& is_ident(s.last())
    &&& forall|i: int| 0 <= i < s.len() ==> is_package_char(#[trigger] s[i])
}

/// `names` are words, and each has one of `texts` that can stand in its place.
pub open spec fn are_replaceable(names: Seq<Seq<char>>, texts: Seq<Seq<char>>) -> bool {
    &&& names.len() == texts.len()
    &&& forall|k: int| 0 <= k < names.len() ==> is_word(#[trigger] names[k])
    &&& forall|k: int| 0 <= k < texts.len() ==> is_plain_name(#[trigger] texts[k])
}

/// An identifier character stands before position `i` of `s`.
pub open spec fn follows_word(s: Seq<char>, i: int) -> bool {
    i > 0 && is_ident(s[i - 1])
}

/// The scan of `s` has come to position `i` and to position `p` of its result `out`.
spec fn stands_at(
    s: Seq<char>,
    names: Seq<Seq<char>>,
    texts: Seq<Seq<char>>,
    out: Seq<char>,
    i: int,
    p: int,
) -> bool {
    &&& 0 <= i <= s.len()
    &&& 0 <= p <= out.len()
    &&& out.skip(p) == replaced_from(s, names, texts, i)
    &&& lex_at(out, p) == lex_at(s, i)
    &&& follows_word(out, p) == follows_word(s, i)
}

/// Where a name is called, it is the one that is found, and stands there.
pub proof fn lemma_callee(s: Seq<char>, names: Seq<Seq<char>>, i: int)
    ensures
        callee(s, names, i) matches Some(k) ==> 0 <= k < names.len() && names[k].len() > 0
            && is_call_site(s, names[k], i) && s[i] == names[k][0],
        callee(s, names, i) is None ==> forall|k: int|
            0 <= k < names.len() && (#[trigger] names[k]).len() > 0 ==> !is_call_site(
                s,
                names[k],
                i,
            ),
        follows_word(s, i) ==> callee(s, names, i) is None,
{
    let p = called_at(s, names, i);
    lemma_first_found(p, 0, names.len() as int);
    if let Some(k) = callee(s, names, i) {
        assert(p(k));
        assert(s.subrange(i, i + names[k].len())[0] == names[k][0]);
    } else {
        assert forall|k: int| 0 <= k < names.len() && (#[trigger] names[k]).len() > 0 implies
            !is_call_site(s, names[k], i) by {
            assert(!p(k));
        }
    }
}

/// What the scan puts out next: the next character, or the first of a replacement.
proof fn lemma_next_put_out(
    s: Seq<char>,
    names: Seq<Seq<char>>,
    texts: Seq<Seq<char>>,
    i: int,
)
    requires
        are_replaceable(names, texts),
        0 <= i <= s.len(),
    ensures
        ({
            let rest = replaced_from(s, names, texts, i);
            &&& rest.len() == 0 <==> i == s.len()
            &&& i < s.len() ==> match callee(s, names, i) {
                Some(k) => is_ident(s[i]) && is_package_char(rest[0]),
                None => rest[0] == s[i],
            }
        }),
{
    lemma_callee(s, names, i);
    if i < s.len() {
        if let Some(k) = callee(s, names, i) {
            assert(is_word(names[k]));
            assert(is_plain_name(texts[k]));
            assert(is_ident(names[k][0]));
            assert(is_package_char(texts[k][0]));
        }
    }
}

/// Characters of package names leave the scanner in code.
proof fn lemma_plain_run_is_code(s: Seq<char>, i: int, n: int)
    requires
        0 <= i,
        0 <= n,
        i + n <= s.len(),
        lex_at(s, i) is Code,
        forall|j: int| i <= j < i + n ==> is_package_char(#[trigger] s[j]),
    ensures
        lex_at(s, i + n) is Code,
    decreases n,
{
    if n > 0 {
        lemma_plain_run_is_code(s, i, n - 1);
        assert(is_package_char(s[i + n - 1]));
    }
}

/// A character that is called nowhere is put out as it is.
proof fn lemma_step_kept(
    s: Seq<char>,
    names: Seq<Seq<char>>,
    texts: Seq<Seq<char>>,
    out: Seq<char>,
    i: int,
    p: int,
)
    requires
        are_replaceable(names, texts),
        stands_at(s, names, texts, out, i, p),
        i < s.len(),
        callee(s, names, i) is None,
    ensures
        p < out.len(),
        out[p] == s[i],
        stands_at(s, names, texts, out, i + 1, p + 1),
{
    let rest = replaced_from(s, names, texts, i + 1);
    assert(out.skip(p) == seq![s[i]] + rest);
    assert(out.skip(p)[0] == s[i]);
    assert(out.skip(p + 1) =~= rest) by {
        assert(out.skip(p + 1) =~= out.skip(p).skip(1));
        assert((seq![s[i]] + rest).skip(1) =~= rest);
    }
    lemma_next_put_out(s, names, texts, i + 1);
    assert(rest.len() > 0 ==> out[p + 1] == rest[0]);
    lemma_callee(s, names, i + 1);
}

/// A call is put out as the replacement of its name.
proof fn lemma_step_call(
    s: Seq<char>,
    names: Seq<Seq<char>>,
    texts: Seq<Seq<char>>,
    out: Seq<char>,
    i: int,
    p: int,
)
    requires
        are_replaceable(names, texts),
        stands_at(s, names, texts, out, i, p),
        i < s.len(),
        callee(s, names, i) is Some,
    ensures
        ({
            let k = callee(s, names, i)->0;
            &&& occurs_at(out, texts[k], p)
            &&& stands_at(s, names, texts, out, i + names[k].len(), p + texts[k].len())
            &&& is_call_site(out, texts[k], p)
        }),
{
    lemma_callee(s, names, i);
    let k = callee(s, names, i)->0;
    let name = names[k];
    let text = texts[k];
    let n = name.len() as int;
    let m = text.len() as int;
    let rest = replaced_from(s, names, texts, i + n);
    assert(is_word(name));
    assert(is_plain_name(text));
    assert(out.skip(p) == text + rest);
    assert(out.skip(p).len() == out.len() - p);
    assert(out.subrange(p, p + m) =~= text) by {
        assert forall|j: int| 0 <= j < m implies out[p + j] == text[j] by {
            assert(out.skip(p)[j] == text[j]);
        }
    }
    assert(out.skip(p + m) =~= rest) by {
        assert(out.skip(p + m) =~= out.skip(p).skip(m));
        assert((text + rest).skip(m) =~= rest);
    }
    assert forall|j: int| i <= j < i + n implies is_ident(#[trigger] s[j]) by {
        assert(s.subrange(i, i + n)[j - i] == name[j - i]);
    }
    assert forall|j: int| p <= j < p + m implies is_package_char(#[trigger] out[j]) by {
        assert(out.subrange(p, p + m)[j - p] == text[j - p]);
    }
    lemma_plain_run_is_code(s, i, n);
    lemma_plain_run_is_code(out, p, m);
    assert(out[p + m - 1] == text[m - 1]);
    assert(is_ident(s[i + n - 1]));
    assert(stands_at(s, names, texts, out, i + n, p + m));
    lemma_callee(s, names, i + n);
    lemma_next_put_out(s, names, texts, i + n);
    if i + n < s.len() {
        assert(out[p + m] == rest[0]);
    }
    lemma_opens_alike(s, names, texts, out, i + n, p + m);
    assert(is_package_char(out[p]));
}

/// What follows a name follows its replacement: a `(` opens a call in the one exactly if it does
/// in the other.
proof fn lemma_opens_alike(
    s: Seq<char>,
    names: Seq<Seq<char>>,
    texts: Seq<Seq<char>>,
    out: Seq<char>,
    i: int,
    p: int,
)
    requires
        are_replaceable(names, texts),
        stands_at(s, names, texts, out, i, p),
    ensures
        opens_call(out, p) == opens_call(s, i),
    decreases s.len() - i,
{
    lemma_next_put_out(s, names, texts, i);
    if i < s.len() {
        assert(out[p] == out.skip(p)[0]);
        if is_space(s[i]) {
            lemma_callee(s, names, i);
            lemma_step_kept(s, names, texts, out, i, p);
            lemma_opens_alike(s, names, texts, out, i + 1, p + 1);
        }
    }
}

/// The length of what the scan puts out from position `from` to position `to`.
pub open spec fn put_out(
    s: Seq<char>,
    names: Seq<Seq<char>>,
    texts: Seq<Seq<char>>,
    from: int,
    to: int,
) -> int
    decreases s.len() - from,
{
    proof {
        lemma_first_found(called_at(s, names, from), 0, names.len() as int);
    }
    if from >= to || from >= s.len() {
        0
    } else {
        match callee(s, names, from) {
            Some(k) => texts[k].len() + put_out(s, names, texts, from + names[k].len(), to),
            None => 1 + put_out(s, names, texts, from + 1, to),
        }
    }
}

/// No call of one of `names` has position `i` of `s` inside of it.
spec fn splits_no_call(s: Seq<char>, names: Seq<Seq<char>>, i: int) -> bool {
    forall|k: int, j: int|
        0 <= k < names.len() && #[trigger] is_call_site(s, names[k], j) ==> !(j < i < j
            + names[k].len())
}

/// The scan comes to every position that is not inside of a call.
proof fn lemma_scan_reaches(
    s: Seq<char>,
    names: Seq<Seq<char>>,
    texts: Seq<Seq<char>>,
    out: Seq<char>,
    from: int,
    p: int,
    to: int,
)
    requires
        are_replaceable(names, texts),
        stands_at(s, names, texts, out, from, p),
        from <= to <= s.len(),
        splits_no_call(s, names, to),
    ensures
        stands_at(s, names, texts, out, to, p + put_out(s, names, texts, from, to)),
        from < to ==> put_out(s, names, texts, from, to) > 0,
    decreases to - from,
{
    if from < to {
        lemma_callee(s, names, from);
        match callee(s, names, from) {
            Some(k) => {
                let n = names[k].len() as int;
                assert(is_plain_name(texts[k]));
                assert(from + n <= to);
                lemma_step_call(s, names, texts, out, from, p);
                lemma_scan_reaches(
                    s,
                    names,
                    texts,
                    out,
                    from + n,
                    p + texts[k].len(),
                    to,
                );
            },
            None => {
                lemma_step_kept(s, names, texts, out, from, p);
                lemma_scan_reaches(s, names, texts, out, from + 1, p + 1, to);
            },
        }
    }
}

/// The scan begins at the start of the source and of the result.
proof fn lemma_scan_begins(s: Seq<char>, names: Seq<Seq<char>>, texts: Seq<Seq<char>>)
    ensures
        stands_at(s, names, texts, replaced(s, names, texts), 0, 0),
{
    assert(replaced(s, names, texts).skip(0) =~= replaced(s, names, texts));
}

/// Two words that are called at the same place are the same.
proof fn lemma_same_callee(s: Seq<char>, a: Seq<char>, b: Seq<char>, i: int)
    requires
        is_word(a),
        is_word(b),
        is_call_site(s, a, i),
        is_call_site(s, b, i),
    ensures
        a == b,
{
    if a.len() < b.len() {
        assert(s.subrange(i, i + b.len())[a.len() as int] == b[a.len() as int]);
    } else if b.len() < a.len() {
        assert(s.subrange(i, i + a.len())[b.len() as int] == a[b.len() as int]);
    }
}

/// A call begins inside of no other.
proof fn lemma_call_splits_no_call(s: Seq<char>, names: Seq<Seq<char>>, i: int)
    requires
        forall|k: int| 0 <= k < names.len() ==> is_word(#[trigger] names[k]),
        !follows_word(s, i),
    ensures
        splits_no_call(s, names, i),
{
    assert forall|k: int, j: int|
        0 <= k < names.len() && #[trigger] is_call_site(s, names[k], j) implies !(j < i < j
        + names[k].len()) by {
        if j < i < j + names[k].len() {
            assert(is_word(names[k]));
            assert(s.subrange(j, j + names[k].len())[i - 1 - j] == names[k][i - 1 - j]);
        }
    }
}

/// A word of the result that is called and was not put in was called in the source.
proof fn lemma_call_was_there(
    s: Seq<char>,
    names: Seq<Seq<char>>,
    texts: Seq<Seq<char>>,
    out: Seq<char>,
    i: int,
    p: int,
    word: Seq<char>,
)
    requires
        are_replaceable(names, texts),
        stands_at(s, names, texts, out, i, p),
        callee(s, names, i) is None,
        is_word(word),
        is_call_site(out, word, p),
    ensures
        is_call_site(s, word, i),
{
    let n = word.len() as int;
    lemma_word_was_there(s, names, texts, out, i, p, word, n);
    assert(word.take(n) =~= word);
    lemma_opens_alike(s, names, texts, out, i + n, p + n);
    lemma_next_put_out(s, names, texts, i + n);
    assert(s[i + n - 1] == s.subrange(i, i + n)[n - 1]);
    lemma_callee(s, names, i + n);
    if i + n < s.len() {
        assert(out[p + n] == out.skip(p + n)[0]);
    }
    assert(s[i] == s.subrange(i, i + n)[0]);
    assert(is_ident(word[0]));
}

/// The first `t` characters of such a word were there.
proof fn lemma_word_was_there(
    s: Seq<char>,
    names: Seq<Seq<char>>,
    texts: Seq<Seq<char>>,
    out: Seq<char>,
    i: int,
    p: int,
    word: Seq<char>,
    t: int,
)
    requires
        are_replaceable(names, texts),
        stands_at(s, names, texts, out, i, p),
        callee(s, names, i) is None,
        is_word(word),
        occurs_at(out, word, p),
        0 <= t <= word.len(),
    ensures
        i + t <= s.len(),
        s.subrange(i, i + t) == word.take(t),
        stands_at(s, names, texts, out, i + t, p + t),
    decreases t,
{
    if t > 0 {
        let u = t - 1;
        lemma_word_was_there(s, names, texts, out, i, p, word, u);
        assert(out.subrange(p, p + word.len())[u] == word[u]);
        assert(out.skip(p + u)[0] == word[u]);
        lemma_next_put_out(s, names, texts, i + u);
        if u > 0 {
            assert(s[i + u - 1] == s.subrange(i, i + u)[u - 1]);
            assert(is_ident(word[u - 1]));
            lemma_callee(s, names, i + u);
        }
        lemma_step_kept(s, names, texts, out, i + u, p + u);
        assert(s.subrange(i, i + t) =~= s.subrange(i, i + u).push(s[i + u]));
        assert(word.take(t) =~= word.take(u).push(word[u]));
    }
}

// There and back ----------------------------------------------------------

/// Renaming one name is replacing it alone.
pub proof fn law_renaming_is_replacing_one_name(s: Seq<char>, name: Seq<char>, text: Seq<char>)
    ensures
        renamed(s, name, text) == replaced(s, seq![name], seq![text]),
{
    lemma_one_name(s, name, text, 0);
}

/// Renaming one name from a position on is replacing it alone from there on.
proof fn lemma_one_name(s: Seq<char>, name: Seq<char>, text: Seq<char>, i: int)
    requires
        0 <= i <= s.len(),
    ensures
        renamed_from(s, name, text, i) == replaced_from(s, seq![name], seq![text], i),
    decreases s.len() - i,
{
    let names = seq![name];
    lemma_callee(s, names, i);
    if i < s.len() {
        if name.len() > 0 && is_call_site(s, name, i) {
            assert(names[0] == name);
            lemma_one_name(s, name, text, i + name.len());
        } else {
            lemma_one_name(s, name, text, i + 1);
        }
    }
}

/// A word can be replaced by a word.
proof fn lemma_words_are_replaceable(name: Seq<char>, text: Seq<char>)
    requires
        is_word(name),
        is_word(text),
    ensures
        are_replaceable(seq![name], seq![text]),
{
    assert(is_ident(text[text.len() - 1]));
    assert forall|j: int| 0 <= j < text.len() implies is_package_char(#[trigger] text[j]) by {
        assert(is_ident(text[j]));
    }
}

/// Renaming a function to a name that is not called, and back again, gives the source.
pub proof fn law_renaming_can_be_undone(s: Seq<char>, name: Seq<char>, replacement: Seq<char>)
    requires
        is_word(name),
        is_word(replacement),
        forall|i: int| !is_call_site(s, replacement, i),
    ensures
        renamed(renamed(s, name, replacement), replacement, name) == s,
{
    lemma_words_are_replaceable(name, replacement);
    lemma_one_name(s, name, replacement, 0);
    lemma_scan_begins(s, seq![name], seq![replacement]);
    lemma_undone(s, name, replacement, renamed(s, name, replacement), 0, 0);
    assert(s.skip(0) =~= s);
}

/// Renaming back from where the scan stands gives what it has not yet gone over.
proof fn lemma_undone(
    s: Seq<char>,
    name: Seq<char>,
    replacement: Seq<char>,
    out: Seq<char>,
    i: int,
    p: int,
)
    requires
        is_word(name),
        is_word(replacement),
        are_replaceable(seq![name], seq![replacement]),
        forall|i: int| !is_call_site(s, replacement, i),
        stands_at(s, seq![name], seq![replacement], out, i, p),
    ensures
        renamed_from(out, replacement, name, p) == s.skip(i),
    decreases s.len() - i,
{
    let names = seq![name];
    let texts = seq![replacement];
    lemma_next_put_out(s, names, texts, i);
    lemma_callee(s, names, i);
    if i == s.len() {
        assert(s.skip(i) =~= seq![]);
    } else if callee(s, names, i) is Some {
        let n = name.len() as int;
        assert(names[0] == name && texts[0] == replacement);
        lemma_step_call(s, names, texts, out, i, p);
        lemma_undone(s, name, replacement, out, i + n, p + replacement.len());
        assert(s.skip(i) =~= s.subrange(i, i + n) + s.skip(i + n));
    } else {
        if is_call_site(out, replacement, p) {
            lemma_call_was_there(s, names, texts, out, i, p, replacement);
        }
        lemma_step_kept(s, names, texts, out, i, p);
        lemma_undone(s, name, replacement, out, i + 1, p + 1);
        assert(s.skip(i) =~= seq![s[i]] + s.skip(i + 1));
    }
}

/// Renaming is complete: once a name is renamed to another, it is called nowhere, and renaming
/// it again changes nothing.
pub proof fn law_renaming_is_complete(
    s: Seq<char>,
    name: Seq<char>,
    replacement: Seq<char>,
    again: Seq<char>,
)
    requires
        is_word(name),
        is_word(replacement),
        name != replacement,
    ensures
        forall|i: int| !is_call_site(renamed(s, name, replacement), name, i),
        renamed(renamed(s, name, replacement), name, again) == renamed(s, name, replacement),
{
    let out = renamed(s, name, replacement);
    lemma_words_are_replaceable(name, replacement);
    lemma_one_name(s, name, replacement, 0);
    lemma_scan_begins(s, seq![name], seq![replacement]);
    lemma_not_called_behind(s, name, replacement, out, 0, 0);
    assert forall|i: int| !is_call_site(out, name, i) by {
        if is_call_site(out, name, i) {
            assert(0 <= i < out.len());
        }
    }
    law_renaming_changes_calls_only(out, name, again);
}

/// A renamed name is not called behind where the scan stands.
proof fn lemma_not_called_behind(
    s: Seq<char>,
    name: Seq<char>,
    replacement: Seq<char>,
    out: Seq<char>,
    i: int,
    p: int,
)
    requires
        is_word(name),
        is_word(replacement),
        are_replaceable(seq![name], seq![replacement]),
        name != replacement,
        stands_at(s, seq![name], seq![replacement], out, i, p),
    ensures
        forall|q: int| p <= q < out.len() ==> !is_call_site(out, name, q),
    decreases s.len() - i,
{
    let names = seq![name];
    let texts = seq![replacement];
    lemma_next_put_out(s, names, texts, i);
    lemma_callee(s, names, i);
    if i == s.len() {
    } else if callee(s, names, i) is Some {
        let m = replacement.len() as int;
        assert(names[0] == name && texts[0] == replacement);
        lemma_step_call(s, names, texts, out, i, p);
        lemma_not_called_behind(s, name, replacement, out, i + name.len(), p + m);
        assert forall|q: int| p <= q < out.len() implies !is_call_site(out, name, q) by {
            if q == p && is_call_site(out, name, q) {
                lemma_same_callee(out, name, replacement, p);
            } else if p < q < p + m {
                assert(out.subrange(p, p + m)[q - 1 - p] == replacement[q - 1 - p]);
                assert(is_ident(out[q - 1]));
            }
        }
    } else {
        if is_call_site(out, name, p) {
            lemma_call_was_there(s, names, texts, out, i, p, name);
            assert(names[0] == name);
        }
        lemma_step_kept(s, names, texts, out, i, p);
        lemma_not_called_behind(s, name, replacement, out, i + 1, p + 1);
    }
}

// A package's exports -----------------------------------------------------

/// A package as it is installed and compiled in: it has a package name, its signatures are those
/// of its source, and it defines what it exports.
pub open spec fn is_sound_package(package: Package) -> bool {
    &&& is_package_name(package.name)
    &&& package.signatures == signatures_of(package.source)
    &&& first_undefined(package) is None
}

/// Where position `i` of a package's source stands in the code that it contributes.
pub open spec fn code_place(package: Package, i: int) -> int {
    let exports = ranked::<String>(package.exported);
    put_out(package.source, exports, mangled_names(package.name, exports), 0, i)
}

/// The functions that are found have identifiers for names.
proof fn lemma_signature_names(s: Seq<char>, from: int)
    ensures
        forall|k: int|
            0 <= k < signatures_from(s, from).len() ==> is_identifier_text(
                (#[trigger] signatures_from(s, from)[k]).name,
            ),
    decreases s.len() - from,
{
    let mask = code_mask(s);
    lemma_first_found(marked_char(mask, s, '{'), from, s.len() as int);
    if let Some(open) = first_marked(mask, s, from, '{') {
        lemma_first_found(closes_brace(mask, s, open), open, s.len() as int);
        if let Some(close) = closing_brace(mask, s, open) {
            lemma_signature_names(s, close + 1);
            let head = match header_of(s.subrange(from, open)) {
                Some(sig) => seq![sig],
                None => seq![],
            };
            let rest = signatures_from(s, close + 1);
            let all = signatures_from(s, from);
            assert(all == head + rest);
            assert forall|k: int| 0 <= k < all.len() implies is_identifier_text(
                (#[trigger] all[k]).name,
            ) by {
                if k >= head.len() {
                    assert(all[k] == rest[k - head.len()]);
                }
            }
        }
    }
}

/// What a sound package exports are identifiers.
pub proof fn law_exports_are_identifiers(package: Package, k: int)
    requires
        is_sound_package(package),
        0 <= k < package.exported.len(),
    ensures
        is_identifier_text(package.exported[k]),
        is_word(package.exported[k]),
{
    lemma_first_found(undefined_export(package), 0, package.exported.len() as int);
    assert(!undefined_export(package)(k));
    let i = choose|i: int|
        0 <= i < package.signatures.len() && (#[trigger] package.signatures[i]).name
            == package.exported[k];
    lemma_signature_names(package.source, 0);
    assert(is_identifier_text(signatures_from(package.source, 0)[i].name));
    let name = package.exported[k];
    assert forall|j: int| 0 <= j < name.len() implies is_ident(#[trigger] name[j]) by {
        if j == 0 {
            assert(is_letter(name[0]) || name[0] == '_');
        }
    }
}

/// The mangled name of an export can stand in its place.
pub proof fn lemma_exports_are_replaceable(package: Package)
    requires
        is_sound_package(package),
    ensures
        ({
            let exports = ranked::<String>(package.exported);
            &&& are_replaceable(exports, mangled_names(package.name, exports))
            &&& forall|f: Seq<char>|
                package.exported.contains(f) <==> #[trigger] exports.contains(f)
        }),
{
    broadcast use vstd::seq_lib::group_to_multiset_ensures;

    let exports = ranked::<String>(package.exported);
    let texts = mangled_names(package.name, exports);
    lemma_ranked_permutes::<String>(package.exported);
    assert forall|f: Seq<char>| package.exported.contains(f) <==> #[trigger] exports.contains(f) by {
        assert(package.exported.contains(f) <==> package.exported.to_multiset().contains(f));
        assert(exports.contains(f) <==> exports.to_multiset().contains(f));
    }
    assert forall|k: int| 0 <= k < exports.len() implies is_word(#[trigger] exports[k]) by {
        assert(exports.contains(exports[k]));
        let j = choose|j: int|
            0 <= j < package.exported.len() && package.exported[j] == exports[k];
        law_exports_are_identifiers(package, j);
    }
    assert forall|k: int| 0 <= k < texts.len() implies is_plain_name(#[trigger] texts[k]) by {
        let func = exports[k];
        let text = texts[k];
        assert(is_word(func));
        assert(text == mangled(package.name, func));
        reveal_strlit("__");
        let n = package.name.len() as int;
        assert(text.last() == func[func.len() - 1]);
        assert forall|j: int| 0 <= j < text.len() implies is_package_char(#[trigger] text[j]) by {
            if j < n {
                assert(text[j] == package.name[j]);
            } else if j < n + 2 {
                assert(text[j] == "__"@[j - n]);
            } else {
                assert(text[j] == func[j - n - 2]);
                assert(is_ident(func[j - n - 2]));
            }
        }
    }
}

/// Every export comes out under its mangled name: wherever the package's source defines or calls
/// one, its code defines or calls the mangled name.
pub proof fn law_exports_come_out_mangled(package: Package, func: Seq<char>, i: int)
    requires
        is_sound_package(package),
        package.exported.contains(func),
        is_call_site(package.source, func, i),
    ensures
        is_call_site(
            package_code(package),
            mangled(package.name, func),
            code_place(package, i),
        ),
{
    let s = package.source;
    let exports = ranked::<String>(package.exported);
    let texts = mangled_names(package.name, exports);
    lemma_exports_are_replaceable(package);
    assert(exports.contains(func));
    let k = choose|k: int| 0 <= k < exports.len() && exports[k] == func;
    assert(is_word(exports[k]));
    lemma_callee(s, exports, i);
    let found = callee(s, exports, i)->0;
    assert(is_word(exports[found]));
    lemma_same_callee(s, func, exports[found], i);
    lemma_call_splits_no_call(s, exports, i);
    lemma_scan_begins(s, exports, texts);
    let out = replaced(s, exports, texts);
    lemma_scan_reaches(s, exports, texts, out, 0, 0, i);
    lemma_step_call(s, exports, texts, out, i, code_place(package, i));
}

/// Everything else of a package's source is kept: each character that is in no definition or call
/// of an export is in its code, in the place that what comes before it leaves to it.
pub proof fn law_rest_of_package_is_kept(package: Package, i: int)
    requires
        is_sound_package(package),
        0 <= i < package.source.len(),
        forall|func: Seq<char>, j: int|
            package.exported.contains(func) && #[trigger] is_call_site(package.source, func, j)
                ==> !(j <= i < j + func.len()),
    ensures
        0 <= code_place(package, i) < package_code(package).len(),
        package_code(package)[code_place(package, i)] == package.source[i],
{
    let s = package.source;
    let exports = ranked::<String>(package.exported);
    let texts = mangled_names(package.name, exports);
    lemma_exports_are_replaceable(package);
    assert forall|k: int, j: int|
        0 <= k < exports.len() && #[trigger] is_call_site(s, exports[k], j) implies !(j <= i < j
        + exports[k].len()) by {
        assert(exports.contains(exports[k]));
    }
    lemma_callee(s, exports, i);
    lemma_scan_begins(s, exports, texts);
    let out = replaced(s, exports, texts);
    lemma_scan_reaches(s, exports, texts, out, 0, 0, i);
    lemma_step_kept(s, exports, texts, out, i, code_place(package, i));
}

/// A package's code has nothing else in it: it is as long as what its source puts out.
pub proof fn law_package_code_has_nothing_else(package: Package)
    requires
        is_sound_package(package),
    ensures
        package_code(package).len() == code_place(package, package.source.len() as int),
{
    let s = package.source;
    let n = s.len() as int;
    let exports = ranked::<String>(package.exported);
    let texts = mangled_names(package.name, exports);
    lemma_exports_are_replaceable(package);
    lemma_scan_begins(s, exports, texts);
    let out = replaced(s, exports, texts);
    lemma_scan_reaches(s, exports, texts, out, 0, 0, n);
    assert(out.skip(code_place(package, n)).len() == 0);
}

/// What a package's code takes from its source is in the order it had there.
pub proof fn law_package_code_keeps_order(package: Package, i: int, j: int)
    requires
        is_sound_package(package),
        0 <= i < j <= package.source.len(),
        forall|func: Seq<char>, m: int|
            package.exported.contains(func) && #[trigger] is_call_site(package.source, func, m)
                ==> !(m < i < m + func.len()) && !(m < j < m + func.len()),
    ensures
        code_place(package, i) < code_place(package, j),
{
    let s = package.source;
    let exports = ranked::<String>(package.exported);
    let texts = mangled_names(package.name, exports);
    lemma_exports_are_replaceable(package);
    assert forall|k: int, m: int|
        0 <= k < exports.len() && #[trigger] is_call_site(s, exports[k], m) implies !(m < i < m
        + exports[k].len()) && !(m < j < m + exports[k].len()) by {
        assert(exports.contains(exports[k]));
    }
    lemma_put_out_adds_up(s, exports, texts, 0, i, j);
    lemma_scan_begins(s, exports, texts);
    let out = replaced(s, exports, texts);
    lemma_scan_reaches(s, exports, texts, out, 0, 0, i);
    lemma_scan_reaches(s, exports, texts, out, i, code_place(package, i), j);
}

/// What is put out up to a position and from there on is what is put out.
proof fn lemma_put_out_adds_up(
    s: Seq<char>,
    names: Seq<Seq<char>>,
    texts: Seq<Seq<char>>,
    from: int,
    mid: int,
    to: int,
)
    requires
        0 <= from <= mid <= to <= s.len(),
        splits_no_call(s, names, mid),
    ensures
        put_out(s, names, texts, from, to) == put_out(s, names, texts, from, mid) + put_out(
            s,
            names,
            texts,
            mid,
            to,
        ),
    decreases mid - from,
{
    if from < mid {
        lemma_callee(s, names, from);
        match callee(s, names, from) {
            Some(k) => {
                assert(from + names[k].len() <= mid);
                lemma_put_out_adds_up(s, names, texts, from + names[k].len(), mid, to);
            },
            None => {
                lemma_put_out_adds_up(s, names, texts, from + 1, mid, to);
            },
        }
    }
}

/// Two different exports never come out under the same name: where the one is defined or called,
/// the code does not have the mangled name of the other.
pub proof fn law_exports_come_out_apart(
    package: Package,
    func: Seq<char>,
    other: Seq<char>,
    i: int,
)
    requires
        is_sound_package(package),
        package.exported.contains(func),
        package.exported.contains(other),
        func != other,
        is_call_site(package.source, func, i),
    ensures
        mangled(package.name, func) != mangled(package.name, other),
        !is_call_site(
            package_code(package),
            mangled(package.name, other),
            code_place(package, i),
        ),
{
    law_exports_come_out_mangled(package, func, i);
    let k = choose|k: int| 0 <= k < package.exported.len() && package.exported[k] == func;
    let m = choose|m: int| 0 <= m < package.exported.len() && package.exported[m] == other;
    law_exports_are_identifiers(package, k);
    law_exports_are_identifiers(package, m);
    let out = package_code(package);
    let at = code_place(package, i);
    let a = mangled(package.name, func);
    let b = mangled(package.name, other);
    reveal_strlit("__");
    let n = package.name.len() + 2;
    assert(a.skip(n as int) =~= func);
    assert(b.skip(n as int) =~= other);
    if is_call_site(out, b, at) {
        if a.len() < b.len() {
            assert(out.subrange(at, at + b.len())[a.len() as int] == b[a.len() as int]);
            assert(b[a.len() as int] == other[func.len() as int]);
        } else if b.len() < a.len() {
            assert(out.subrange(at, at + a.len())[b.len() as int] == a[b.len() as int]);
            assert(a[b.len() as int] == func[other.len() as int]);
        }
    }
}

/// Every exported function of every imported package has a name of its own: no two of them, of
/// one package or of two, are mangled alike.
pub proof fn law_exports_have_unique_names(
    s: Seq<char>,
    block: Option<Library>,
    installed: Seq<Package>,
    a: int,
    func: Seq<char>,
    b: int,
    other: Seq<char>,
)
    requires
        compiled(s, block, installed) is Ok,
        0 <= a < imported(installed, block_imports(block)).len(),
        0 <= b < imported(installed, block_imports(block)).len(),
        imported(installed, block_imports(block))[a].exported.contains(func),
        imported(installed, block_imports(block))[b].exported.contains(other),
        mangled(imported(installed, block_imports(block))[a].name, func) == mangled(
            imported(installed, block_imports(block))[b].name,
            other,
        ),
    ensures
        imported(installed, block_imports(block))[a].name == imported(
            installed,
            block_imports(block),
        )[b].name,
        func == other,
{
    let packages = imported(installed, block_imports(block));
    lemma_export_is_claimed(packages, a, func);
    lemma_export_is_claimed(packages, b, other);
    let taken = claims(packages);
    let x = Claim { mangled: mangled(packages[a].name, func), package: packages[a].name };
    let y = Claim { mangled: mangled(packages[b].name, other), package: packages[b].name };
    let i = choose|i: int| 0 <= i < taken.len() && taken[i] == x;
    let j = choose|j: int| 0 <= j < taken.len() && taken[j] == y;
    if i < j {
        law_mangled_names_are_unique(s, block, installed, i, j);
    } else if j < i {
        law_mangled_names_are_unique(s, block, installed, j, i);
    }
    law_mangling_tells_functions_apart(packages[a].name, func, other);
}

/// Every export of a package is claimed by it.
proof fn lemma_export_is_claimed(packages: Seq<Package>, k: int, func: Seq<char>)
    requires
        0 <= k < packages.len(),
        packages[k].exported.contains(func),
    ensures
        claims(packages).contains(
            Claim { mangled: mangled(packages[k].name, func), package: packages[k].name },
        ),
    decreases packages.len(),
{
    broadcast use vstd::seq_lib::group_to_multiset_ensures;

    let claim = Claim { mangled: mangled(packages[k].name, func), package: packages[k].name };
    let front = claims(packages.drop_last());
    let last = packages.last();
    let exports = ranked::<String>(last.exported);
    let all = claims(packages);
    if k == packages.len() - 1 {
        lemma_ranked_permutes::<String>(last.exported);
        assert(last.exported.to_multiset().contains(func));
        assert(exports.contains(func));
        let j = choose|j: int| 0 <= j < exports.len() && exports[j] == func;
        assert(all[front.len() + j] == claim);
    } else {
        lemma_export_is_claimed(packages.drop_last(), k, func);
        let j = choose|j: int| 0 <= j < front.len() && front[j] == claim;
        assert(all[j] == claim);
    }
}

} // verus!
