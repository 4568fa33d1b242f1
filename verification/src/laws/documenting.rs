//! Documentation, starter manifests and error notes.
use vstd::prelude::*;

use crate::codegen::Package;
use crate::codegen::imports::{first_undefined, undefined_export};
use crate::codegen::line_ranges::PackageLines;
use crate::docs::{documents, escaped, escaped_char, lookup_result, sidecar_of, DocsFault};
use crate::init::{init_result, names_by_doc, InitFault, SummaryText};
use crate::manifest::PackageText;
use crate::order::{
    lemma_ranked_ascends, lemma_ranked_is_stable, lemma_ranked_permutes, lemma_text_less_total,
    ranked, same_rank, text_at_most, ties,
};
use crate::parser::signatures::{signatures_of, FunctionSig, Signature};
use crate::resolve::lockfile::{find_pin, Pin};
use crate::text::{first_from, lemma_first_found, lemma_first_shifts, occurs_at};
use crate::validate::{annotated, line_numbers, names_line_of, note_text, notes};

verus! {

/// Escaped text holds no character that could end or open markup or an attribute.
pub proof fn law_escaped_text_is_inert(s: Seq<char>, i: int)
    requires
        0 <= i < escaped(s).len(),
    ensures
        escaped(s)[i] != '<',
        escaped(s)[i] != '>',
        escaped(s)[i] != '"',
        escaped(s)[i] != '\'',
    decreases s.len(),
{
    let front = escaped(s.drop_last());
    if i < front.len() {
        law_escaped_text_is_inert(s.drop_last(), i);
    } else {
        reveal_strlit("&amp;");
        reveal_strlit("&lt;");
        reveal_strlit("&gt;");
        reveal_strlit("&quot;");
        reveal_strlit("&#39;");
        assert(escaped(s)[i] == escaped_char(s.last())[i - front.len()]);
    }
}

/// Escaping goes over concatenation.
pub proof fn law_escaping_goes_over_concatenation(a: Seq<char>, b: Seq<char>)
    ensures
        escaped(a + b) == escaped(a) + escaped(b),
    decreases b.len(),
{
    if b.len() == 0 {
        assert(a + b =~= a);
        assert(escaped(a) + escaped(b) =~= escaped(a));
    } else {
        law_escaping_goes_over_concatenation(a, b.drop_last());
        assert((a + b).drop_last() =~= a + b.drop_last());
        assert((a + b).last() == b.last());
        let c = escaped_char(b.last());
        assert(escaped(a) + escaped(b.drop_last()) + c =~= escaped(a) + (escaped(b.drop_last())
            + c));
    }
}

/// The text of `s` from position `i` on with `by` in place of each `pat`, these taken from the
/// left.
pub open spec fn with_each(s: Seq<char>, pat: Seq<char>, by: char, i: int) -> Seq<char>
    decreases s.len() - i,
{
    if i < 0 || i >= s.len() {
        seq![]
    } else if pat.len() > 0 && occurs_at(s, pat, i) {
        seq![by] + with_each(s, pat, by, i + pat.len())
    } else {
        seq![s[i]] + with_each(s, pat, by, i + 1)
    }
}

/// `s` with the characters that they stand for in place of `&lt;`, `&gt;`, `&quot;`, `&#39;` and,
/// last, `&amp;`.
pub open spec fn unescaped(s: Seq<char>) -> Seq<char> {
    let s1 = with_each(s, "&lt;"@, '<', 0);
    let s2 = with_each(s1, "&gt;"@, '>', 0);
    let s3 = with_each(s2, "&quot;"@, '"', 0);
    let s4 = with_each(s3, "&#39;"@, '\'', 0);
    with_each(s4, "&amp;"@, '&', 0)
}

/// Unescaping gives the text back.
pub proof fn law_unescaping_gives_text_back(s: Seq<char>)
    ensures
        unescaped(escaped(s)) == s,
{
    reveal_strlit("&lt;");
    reveal_strlit("&gt;");
    reveal_strlit("&quot;");
    reveal_strlit("&#39;");
    reveal_strlit("&amp;");
    lemma_escaped_is_images(s);
    lemma_unescape_step(s, 0, "&lt;"@, '<');
    lemma_unescape_step(s, 1, "&gt;"@, '>');
    lemma_unescape_step(s, 2, "&quot;"@, '"');
    lemma_unescape_step(s, 3, "&#39;"@, '\'');
    lemma_unescape_step(s, 4, "&amp;"@, '&');
    lemma_last_images(s);
}

/// How a character is written once the first `n` kinds of escapes are undone.
spec fn image(n: int, c: char) -> Seq<char> {
    if (n >= 1 && c == '<') || (n >= 2 && c == '>') || (n >= 3 && c == '"') || (n >= 4 && c
        == '\'') || n >= 5 {
        seq![c]
    } else {
        escaped_char(c)
    }
}

/// How a text is written once the first `n` kinds of escapes are undone.
spec fn images(n: int, s: Seq<char>) -> Seq<char>
    decreases s.len(),
{
    if s.len() == 0 {
        seq![]
    } else {
        image(n, s[0]) + images(n, s.drop_first())
    }
}

/// With nothing undone, a text is escaped.
proof fn lemma_escaped_is_images(s: Seq<char>)
    ensures
        escaped(s) == images(0, s),
    decreases s.len(),
{
    if s.len() > 0 {
        let rest = s.drop_first();
        lemma_escaped_is_images(rest);
        let one = seq![s[0]];
        assert(s =~= one + rest);
        law_escaping_goes_over_concatenation(one, rest);
        assert(one.drop_last().len() == 0);
        assert(escaped(one.drop_last()) =~= Seq::<char>::empty());
        assert(one.last() == s[0]);
        assert(escaped(one) =~= escaped_char(s[0]));
    }
}

/// With everything undone, a text is itself.
proof fn lemma_last_images(s: Seq<char>)
    ensures
        images(5, s) == s,
    decreases s.len(),
{
    if s.len() > 0 {
        lemma_last_images(s.drop_first());
        assert(seq![s[0]] + s.drop_first() =~= s);
    }
}

/// What stands in front does not change what is put in behind it.
proof fn lemma_with_each_behind(u: Seq<char>, v: Seq<char>, pat: Seq<char>, by: char, i: int)
    requires
        0 <= i <= v.len(),
    ensures
        with_each(u + v, pat, by, u.len() + i) == with_each(v, pat, by, i),
    decreases v.len() - i,
{
    let s = u + v;
    let d = u.len() as int;
    if i < v.len() {
        assert(s[d + i] == v[i]);
        if i + pat.len() <= v.len() {
            assert(s.subrange(d + i, d + i + pat.len()) =~= v.subrange(i, i + pat.len()));
        }
        if pat.len() > 0 && occurs_at(v, pat, i) {
            lemma_with_each_behind(u, v, pat, by, i + pat.len());
        } else {
            lemma_with_each_behind(u, v, pat, by, i + 1);
        }
    }
}

/// A stretch in which `pat` does not begin is kept.
proof fn lemma_with_each_keeps(s: Seq<char>, pat: Seq<char>, by: char, i: int, n: int)
    requires
        0 <= i <= n <= s.len(),
        forall|j: int| i <= j < n ==> !#[trigger] occurs_at(s, pat, j),
    ensures
        with_each(s, pat, by, i) == s.subrange(i, n) + with_each(s, pat, by, n),
    decreases n - i,
{
    if i < n {
        lemma_with_each_keeps(s, pat, by, i + 1, n);
        assert(!occurs_at(s, pat, i));
        assert(seq![s[i]] + (s.subrange(i + 1, n) + with_each(s, pat, by, n)) =~= s.subrange(i, n)
            + with_each(s, pat, by, n));
    } else {
        assert(s.subrange(i, n) + with_each(s, pat, by, n) =~= with_each(s, pat, by, n));
    }
}

/// Undoing one more kind of escapes.
proof fn lemma_unescape_step(s: Seq<char>, n: int, pat: Seq<char>, by: char)
    requires
        (n == 0 && by == '<') || (n == 1 && by == '>') || (n == 2 && by == '"') || (n == 3 && by
            == '\'') || (n == 4 && by == '&'),
        pat == escaped_char(by),
    ensures
        with_each(images(n, s), pat, by, 0) == images(n + 1, s),
    decreases s.len(),
{
    if s.len() > 0 {
        let c = s[0];
        let rest = s.drop_first();
        lemma_unescape_step(rest, n, pat, by);
        let head = image(n, c);
        let tail = images(n, rest);
        let all = head + tail;
        let m = head.len() as int;
        lemma_escape_images(n, c, by);
        if c == by {
            assert(all.subrange(0, m) =~= pat);
            lemma_with_each_behind(head, tail, pat, by, 0);
        } else {
            assert forall|j: int| 0 <= j < m implies !#[trigger] occurs_at(all, pat, j) by {
                assert(all[j] == head[j]);
                if occurs_at(all, pat, j) {
                    let found = all.subrange(j, j + pat.len());
                    assert(found[0] == all[j]);
                    assert(found[1] == all[j + 1]);
                    if j == 0 && m > 1 {
                        assert(all[1] == head[1]);
                    }
                }
            }
            lemma_with_each_keeps(all, pat, by, 0, m);
            assert(all.subrange(0, m) =~= head);
            lemma_with_each_behind(head, tail, pat, by, 0);
        }
    }
}

/// How the written forms of two characters differ.
proof fn lemma_escape_images(n: int, c: char, by: char)
    requires
        (n == 0 && by == '<') || (n == 1 && by == '>') || (n == 2 && by == '"') || (n == 3 && by
            == '\'') || (n == 4 && by == '&'),
    ensures
        ({
            let pat = escaped_char(by);
            let head = image(n, c);
            &&& pat.len() >= 2
            &&& pat[0] == '&'
            &&& head.len() > 0
            &&& c == by ==> head == pat && image(n + 1, c) == seq![by]
            &&& c != by ==> image(n + 1, c) == head && (head[0] != '&' || (head.len() >= 2 && head[1]
                != pat[1]))
            &&& forall|j: int| 1 <= j < head.len() ==> #[trigger] head[j] != '&'
        }),
{
    reveal_strlit("&lt;");
    reveal_strlit("&gt;");
    reveal_strlit("&quot;");
    reveal_strlit("&#39;");
    reveal_strlit("&amp;");
}

/// Text without special characters is its own escaped form.
pub proof fn law_plain_text_is_not_escaped(s: Seq<char>)
    requires
        forall|i: int|
            0 <= i < s.len() ==> (#[trigger] s[i]) != '&' && s[i] != '<' && s[i] != '>' && s[i]
                != '"' && s[i] != '\'',
    ensures
        escaped(s) == s,
    decreases s.len(),
{
    if s.len() > 0 {
        let front = s.drop_last();
        assert forall|i: int| 0 <= i < front.len() implies (#[trigger] front[i]) != '&' && front[i]
            != '<' && front[i] != '>' && front[i] != '"' && front[i] != '\'' by {
            assert(front[i] == s[i]);
        }
        law_plain_text_is_not_escaped(front);
        assert(s[s.len() - 1] == s.last());
        assert(front + seq![s.last()] =~= s);
    }
}

// The sidecar -------------------------------------------------------------

/// Signatures have the same rank exactly if they have the same name.
proof fn lemma_signatures_tie(a: Signature, b: Signature)
    ensures
        same_rank::<FunctionSig>(a, b) <==> a.name == b.name,
{
    lemma_text_less_total(a.name, b.name);
    lemma_text_less_total(a.name, a.name);
}

/// The first function of a name is the first of those of its rank.
proof fn lemma_function_by_ties(functions: Seq<Signature>, v: Signature)
    ensures
        match first_from(documents(functions, v.name), 0, functions.len() as int) {
            Some(i) => 0 <= i < functions.len() && ties::<FunctionSig>(functions, v).len() > 0
                && functions[i] == ties::<FunctionSig>(functions, v)[0],
            None => ties::<FunctionSig>(functions, v).len() == 0,
        },
    decreases functions.len(),
{
    if functions.len() > 0 {
        let rest = functions.drop_first();
        let p = documents(functions, v.name);
        let q = documents(rest, v.name);
        lemma_signatures_tie(functions[0], v);
        lemma_function_by_ties(rest, v);
        if functions[0].name == v.name {
            assert(p(0));
        } else {
            assert(!p(0));
            lemma_first_shifts(q, p, 0, rest.len() as int);
        }
    }
}

/// What is written into a sidecar is what `laplace doc` finds: for a pinned package it returns
/// the first function of that name in the package's source, with its doc comment or without,
/// and says that there is none exactly if the source defines none.
pub proof fn law_sidecar_answers_for_source(
    pins: Seq<Pin>,
    dir: Seq<char>,
    package: Seq<char>,
    func: Seq<char>,
    source: Seq<char>,
    version: Seq<char>,
)
    requires
        find_pin(pins, package) is Some,
    ensures
        ({
            let sigs = signatures_of(source);
            let found = lookup_result(
                Ok(pins),
                dir,
                package,
                func,
                Some(Ok(sidecar_of(source, package, version))),
            );
            match first_from(documents(sigs, func), 0, sigs.len() as int) {
                Some(i) => found == Ok::<Signature, DocsFault>(sigs[i]),
                None => found == Err::<Signature, DocsFault>(
                    DocsFault::FunctionNotFound { package, func },
                ),
            }
        }),
{
    let sigs = signatures_of(source);
    let v = Signature { name: func, params: seq![], return_type: seq![], doc: None };
    lemma_function_by_ties(sigs, v);
    lemma_function_by_ties(ranked::<FunctionSig>(sigs), v);
    lemma_ranked_is_stable::<FunctionSig>(sigs, v);
}

/// The functions of a sidecar are in the order of their names, and are those of the source.
pub proof fn law_sidecar_is_sorted(source: Seq<char>, name: Seq<char>, version: Seq<char>)
    ensures
        ({
            let functions = sidecar_of(source, name, version).functions;
            &&& functions.to_multiset() == signatures_of(source).to_multiset()
            &&& forall|i: int, j: int|
                0 <= i < j < functions.len() ==> text_at_most(
                    (#[trigger] functions[i]).name,
                    (#[trigger] functions[j]).name,
                )
        }),
{
    lemma_ranked_permutes::<FunctionSig>(signatures_of(source));
    lemma_ranked_ascends::<FunctionSig>(signatures_of(source));
}

// Starter manifests -------------------------------------------------------

/// Every function is reported by `init` once: as included where it has a doc comment, as
/// excluded where it has none.
pub proof fn law_init_reports_every_function(sigs: Seq<Signature>, i: int)
    requires
        0 <= i < sigs.len(),
    ensures
        names_by_doc(sigs, sigs[i].doc is Some).contains(sigs[i].name),
        names_by_doc(sigs, true).len() + names_by_doc(sigs, false).len() == sigs.len(),
    decreases sigs.len(),
{
    let front = sigs.drop_last();
    let documented = sigs[i].doc is Some;
    let names = names_by_doc(sigs, documented);
    if front.len() > 0 {
        law_init_reports_every_function(
            front,
            if i < front.len() {
                i
            } else {
                0
            },
        );
    } else {
        assert(names_by_doc(front, true).len() == 0 && names_by_doc(front, false).len() == 0);
    }
    if i == sigs.len() - 1 {
        assert(names.last() == sigs[i].name);
    } else {
        assert(front[i] == sigs[i]);
        let before = names_by_doc(front, documented);
        let k = choose|k: int| 0 <= k < before.len() && before[k] == sigs[i].name;
        assert(names[k] == sigs[i].name);
    }
}

/// What `init` exports, the package defines: the manifest that it writes is one that the
/// compiler accepts for that source.
pub proof fn law_init_exports_what_is_defined(
    dir_name: Option<Seq<char>>,
    path: Seq<char>,
    source: Seq<char>,
    name: Seq<char>,
)
    requires
        init_result(dir_name, path, false, Ok(source)) is Ok,
    ensures
        first_undefined(
            Package {
                name,
                source,
                signatures: signatures_of(source),
                exported: init_result(dir_name, path, false, Ok(source))->Ok_0.1.exports,
            },
        ) is None,
{
    let sigs = signatures_of(source);
    let exported = names_by_doc(sigs, true);
    let package = Package { name, source, signatures: sigs, exported };
    let p = undefined_export(package);
    assert forall|k: int| 0 <= k < exported.len() implies !#[trigger] p(k) by {
        lemma_named_is_defined(sigs, true, k);
        let i = choose|i: int| 0 <= i < sigs.len() && (#[trigger] sigs[i]).name == exported[k];
        assert(package.signatures[i].name == exported[k]);
    }
    lemma_first_found(p, 0, exported.len() as int);
}

/// A listed name is that of a function.
proof fn lemma_named_is_defined(sigs: Seq<Signature>, documented: bool, k: int)
    requires
        0 <= k < names_by_doc(sigs, documented).len(),
    ensures
        exists|i: int|
            0 <= i < sigs.len() && (#[trigger] sigs[i]).name == names_by_doc(sigs, documented)[k],
    decreases sigs.len(),
{
    let front = sigs.drop_last();
    let before = names_by_doc(front, documented);
    if k < before.len() {
        lemma_named_is_defined(front, documented, k);
        let i = choose|i: int| 0 <= i < front.len() && (#[trigger] front[i]).name == before[k];
        assert(sigs[i].name == names_by_doc(sigs, documented)[k]);
    } else {
        assert(sigs[sigs.len() - 1].name == names_by_doc(sigs, documented)[k]);
    }
}

/// `init` never replaces a manifest that is there.
pub proof fn law_init_never_overwrites(
    dir_name: Option<Seq<char>>,
    path: Seq<char>,
    source: Result<Seq<char>, Seq<char>>,
)
    ensures
        init_result(dir_name, path, true, source) == Err::<(SummaryText, PackageText), InitFault>(
            InitFault::AlreadyExists(path),
        ),
{
}

// Error notes -------------------------------------------------------------

/// Notes are only put in front: the compiler's own words are kept at the end.
pub proof fn law_annotation_keeps_output(raw: Seq<char>, ranges: Seq<PackageLines>)
    ensures
        ({
            let out = annotated(raw, ranges);
            &&& out.len() >= raw.len()
            &&& out.skip(out.len() - raw.len()) == raw
        }),
{
    let out = annotated(raw, ranges);
    let found = notes(line_numbers(raw), ranges);
    if found.len() == 0 {
        assert(out.skip(0) =~= raw);
    } else {
        assert(out.skip(out.len() - raw.len()) =~= raw);
    }
}

/// Where no named line is in a package's range, nothing is put in front.
pub proof fn law_annotation_without_match_is_none(raw: Seq<char>, ranges: Seq<PackageLines>)
    requires
        forall|k: int|
            0 <= k < ranges.len() ==> !names_line_of(line_numbers(raw), #[trigger] ranges[k]),
    ensures
        annotated(raw, ranges) == raw,
{
    lemma_no_notes(line_numbers(raw), ranges);
}

/// Without a named line there are no notes.
proof fn lemma_no_notes(numbers: Seq<usize>, ranges: Seq<PackageLines>)
    requires
        forall|k: int| 0 <= k < ranges.len() ==> !names_line_of(numbers, #[trigger] ranges[k]),
    ensures
        notes(numbers, ranges).len() == 0,
    decreases ranges.len(),
{
    if ranges.len() > 0 {
        let front = ranges.drop_last();
        assert forall|k: int| 0 <= k < front.len() implies !names_line_of(
            numbers,
            #[trigger] front[k],
        ) by {
            assert(front[k] == ranges[k]);
        }
        lemma_no_notes(numbers, front);
        assert(!names_line_of(numbers, ranges[ranges.len() - 1]));
    }
}

/// Every package whose range a named line is in is noted.
pub proof fn law_every_culprit_is_noted(raw: Seq<char>, ranges: Seq<PackageLines>, k: int)
    requires
        0 <= k < ranges.len(),
        names_line_of(line_numbers(raw), ranges[k]),
    ensures
        notes(line_numbers(raw), ranges).contains(note_text(ranges[k])),
    decreases ranges.len(),
{
    let numbers = line_numbers(raw);
    let all = notes(numbers, ranges);
    if k == ranges.len() - 1 {
        assert(all.last() == note_text(ranges[k]));
    } else {
        law_every_culprit_is_noted(raw, ranges.drop_last(), k);
        let before = notes(numbers, ranges.drop_last());
        let m = choose|m: int| 0 <= m < before.len() && before[m] == note_text(ranges[k]);
        assert(all[m] == note_text(ranges[k]));
    }
}

} // verus!
