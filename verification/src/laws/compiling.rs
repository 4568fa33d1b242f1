//! Compiling a source: what is put in, what is taken out and what stays as it is.
use vstd::prelude::*;

use crate::codegen::{
    block_edits, block_imports, block_span, compiled, lemma_call_edits_plain, splice_edits,
    splice_head, splice_tail, CodegenError, CodegenFault, Compiled, GeneratedStan, Package,
};
use crate::codegen::calls::{call_edits, find_package, inside};
use crate::codegen::edits::{edited, edited_before_splice, edited_from, Edit, SourceEdit};
use crate::codegen::functions_block::{functions_block, functions_header};
use crate::codegen::imports::{
    defines, export_fault, has_package, has_undefined, imported, imports_package, undefined_export,
    unresolved,
};
use crate::codegen::mangling::{claims, clashes, package_codes};
use crate::codegen::rename::{call_site, call_sites, ident_end, is_qualifier, mangled, CallSite};
use crate::laws::parsing::{
    law_call_sites_in_order, law_library_block_stands_in_source, lemma_call_site_bounds,
    lemma_library_span, lemma_sites_have_qualifiers, library_span,
};
use crate::order::{
    lemma_ranked_ascends, lemma_ranked_pairwise, lemma_ranked_permutes, pairwise, ranked, Ranked,
};
use crate::parser::brace_match::{is_code, is_ident, lex_at};
use crate::parser::library_block::{library_of, Import, Library, LibraryFault};
use crate::text::{
    deep_result, first_from, join, lemma_first_found, lemma_skip_space_bounds, occurs_at,
};

verus! {

// Edits -------------------------------------------------------------------

/// Two edits do not overlap.
pub open spec fn edits_apart() -> spec_fn(Edit, Edit) -> bool {
    |a: Edit, b: Edit| a.end <= b.start || b.end <= a.start
}

/// The edits have their ranges in a source of length `n`, and no two of them overlap.
pub open spec fn edits_are_plain(edits: Seq<Edit>, n: int) -> bool {
    &&& forall|i: int|
        0 <= i < edits.len() ==> 0 <= (#[trigger] edits[i]).start <= edits[i].end <= n
    &&& pairwise(edits, edits_apart())
}

/// Each edit ends before the next one begins.
pub open spec fn edits_in_order(edits: Seq<Edit>, n: int) -> bool {
    &&& forall|i: int|
        0 <= i < edits.len() ==> 0 <= (#[trigger] edits[i]).start <= edits[i].end <= n
    &&& forall|i: int, j: int|
        0 <= i < j < edits.len() ==> (#[trigger] edits[i]).end <= (#[trigger] edits[j]).start
}

/// Plain edits, once sorted, are in order.
pub proof fn lemma_sorted_in_order(edits: Seq<Edit>, n: int)
    requires
        edits_are_plain(edits, n),
    ensures
        edits_in_order(ranked::<SourceEdit>(edits), n),
{
    let sorted = ranked::<SourceEdit>(edits);
    lemma_ranked_pairwise::<SourceEdit>(edits, edits_apart());
    lemma_ranked_ascends::<SourceEdit>(edits);
    lemma_ranked_permutes::<SourceEdit>(edits);
    assert forall|i: int| 0 <= i < sorted.len() implies 0 <= (#[trigger] sorted[i]).start
        <= sorted[i].end <= n by {
        lemma_sorted_contains(edits, sorted[i], i);
    }
    assert forall|i: int, j: int| 0 <= i < j < sorted.len() implies (#[trigger] sorted[i]).end <= (
    #[trigger] sorted[j]).start by {
        assert(edits_apart()(sorted[i], sorted[j]));
        assert(<SourceEdit as Ranked>::ranks_at_most(sorted[i], sorted[j]));
        assert(0 <= sorted[i].start <= sorted[i].end);
        assert(0 <= sorted[j].start <= sorted[j].end);
    }
}

/// What is among the sorted edits is among the edits.
proof fn lemma_sorted_contains(edits: Seq<Edit>, e: Edit, i: int)
    requires
        0 <= i < ranked::<SourceEdit>(edits).len(),
        ranked::<SourceEdit>(edits)[i] == e,
    ensures
        edits.contains(e),
{
    broadcast use vstd::seq_lib::group_to_multiset_ensures;

    let sorted = ranked::<SourceEdit>(edits);
    lemma_ranked_permutes::<SourceEdit>(edits);
    assert(sorted.contains(e));
    assert(sorted.to_multiset().contains(e));
    assert(edits.to_multiset().contains(e));
}

/// What is among the edits is among the sorted ones.
pub proof fn lemma_contained_is_sorted(edits: Seq<Edit>, e: Edit)
    requires
        edits.contains(e),
    ensures
        ranked::<SourceEdit>(edits).contains(e),
{
    broadcast use vstd::seq_lib::group_to_multiset_ensures;

    let sorted = ranked::<SourceEdit>(edits);
    lemma_ranked_permutes::<SourceEdit>(edits);
    assert(edits.to_multiset().contains(e));
    assert(sorted.to_multiset().contains(e));
}

/// By how much the edits that end at position `i` or before move what stands there.
pub open spec fn moved_by(edits: Seq<Edit>, i: int) -> int
    decreases edits.len(),
{
    if edits.len() == 0 {
        0
    } else {
        (if edits[0].end <= i {
            edits[0].text.len() - (edits[0].end - edits[0].start)
        } else {
            0
        }) + moved_by(edits.drop_first(), i)
    }
}

/// Position `i` is in the range of none of the edits.
pub open spec fn untouched(edits: Seq<Edit>, i: int) -> bool {
    forall|k: int| 0 <= k < edits.len() ==> !((#[trigger] edits[k]).start <= i < edits[k].end)
}

/// What edits in order make of a text: each untouched character is at its moved position, and
/// each replacement at that of the start of its range.
proof fn lemma_edited_places(s: Seq<char>, edits: Seq<Edit>, cursor: int)
    requires
        edits_in_order(edits, s.len() as int),
        0 <= cursor <= s.len(),
        edits.len() > 0 ==> cursor <= edits[0].start,
    ensures
        ({
            let out = edited_from(s, edits, cursor);
            &&& out.len() == s.len() - cursor + moved_by(edits, s.len() as int)
            &&& forall|i: int|
                cursor <= i < s.len() && #[trigger] untouched(edits, i) ==> 0 <= i - cursor
                    + moved_by(edits, i) < out.len() && out[i - cursor + moved_by(edits, i)] == s[i]
            &&& forall|k: int|
                0 <= k < edits.len() ==> occurs_at(
                    out,
                    (#[trigger] edits[k]).text,
                    edits[k].start - cursor + moved_by(edits.take(k), edits[k].start),
                )
        }),
    decreases edits.len(),
{
    let out = edited_from(s, edits, cursor);
    if edits.len() == 0 {
        assert(out =~= s.skip(cursor));
    } else {
        let e = edits[0];
        let rest = edits.drop_first();
        let kept = s.subrange(cursor, e.start);
        let tail = edited_from(s, rest, e.end);
        assert forall|i: int| 0 <= i < rest.len() implies 0 <= (#[trigger] rest[i]).start
            <= rest[i].end <= s.len() by {
            assert(rest[i] == edits[i + 1]);
        }
        assert forall|i: int, j: int| 0 <= i < j < rest.len() implies (#[trigger] rest[i]).end <= (
        #[trigger] rest[j]).start by {
            assert(rest[i] == edits[i + 1] && rest[j] == edits[j + 1]);
        }
        if rest.len() > 0 {
            assert(rest[0] == edits[1]);
        }
        lemma_edited_places(s, rest, e.end);
        assert(out == kept + e.text + tail);
        assert forall|i: int| cursor <= i < s.len() && #[trigger] untouched(edits, i) implies 0 <= i
            - cursor + moved_by(edits, i) < out.len() && out[i - cursor + moved_by(edits, i)]
            == s[i] by {
            assert(!(e.start <= i < e.end));
            if i < e.start {
                lemma_moved_by_nothing(edits, i);
                assert(out[i - cursor] == kept[i - cursor]);
            } else {
                assert forall|k: int| 0 <= k < rest.len() implies !((#[trigger] rest[k]).start <= i
                    < rest[k].end) by {
                    assert(rest[k] == edits[k + 1]);
                }
                assert(untouched(rest, i));
                let at = i - e.end + moved_by(rest, i);
                assert(out[kept.len() + e.text.len() + at] == tail[at]);
            }
        }
        assert forall|k: int| 0 <= k < edits.len() implies occurs_at(
            out,
            (#[trigger] edits[k]).text,
            edits[k].start - cursor + moved_by(edits.take(k), edits[k].start),
        ) by {
            if k == 0 {
                let from = kept.len() as int;
                assert(out.subrange(from, from + e.text.len()) =~= e.text);
            } else {
                let f = edits[k];
                assert(f == rest[k - 1]);
                assert(edits.take(k).drop_first() =~= rest.take(k - 1));
                assert(edits.take(k)[0] == e);
                assert(e.end <= f.start);
                let at = f.start - e.end + moved_by(rest.take(k - 1), f.start);
                let from = kept.len() + e.text.len() + at;
                assert(occurs_at(tail, f.text, at));
                assert(out.subrange(from, from + f.text.len()) =~= tail.subrange(
                    at,
                    at + f.text.len(),
                ));
            }
        }
    }
}

/// Edits that end behind a position do not move it.
proof fn lemma_moved_by_nothing(edits: Seq<Edit>, i: int)
    requires
        forall|k: int| 0 <= k < edits.len() ==> i < (#[trigger] edits[k]).end,
    ensures
        moved_by(edits, i) == 0,
    decreases edits.len(),
{
    if edits.len() > 0 {
        let rest = edits.drop_first();
        assert(i < edits[0].end);
        assert forall|k: int| 0 <= k < rest.len() implies i < (#[trigger] rest[k]).end by {
            assert(rest[k] == edits[k + 1]);
        }
        lemma_moved_by_nothing(rest, i);
    }
}

/// Edits from position `a` on take away at most what stands between `a` and `j`.
proof fn lemma_moved_by_bound(edits: Seq<Edit>, n: int, a: int, j: int)
    requires
        edits_in_order(edits, n),
        a <= j,
        edits.len() > 0 ==> a <= edits[0].start,
    ensures
        moved_by(edits, j) >= a - j,
    decreases edits.len(),
{
    if edits.len() > 0 {
        let rest = edits.drop_first();
        assert forall|k: int| 0 <= k < rest.len() implies 0 <= (#[trigger] rest[k]).start
            <= rest[k].end <= n by {
            assert(rest[k] == edits[k + 1]);
        }
        assert forall|k: int, m: int| 0 <= k < m < rest.len() implies (#[trigger] rest[k]).end <= (
        #[trigger] rest[m]).start by {
            assert(rest[k] == edits[k + 1] && rest[m] == edits[m + 1]);
        }
        if rest.len() > 0 {
            assert(rest[0] == edits[1]);
        }
        if edits[0].end <= j {
            lemma_moved_by_bound(rest, n, edits[0].end, j);
        } else {
            lemma_moved_by_bound(rest, n, a, j);
        }
    }
}

/// Edits in order keep the order of what they do not touch.
proof fn lemma_moved_by_keeps_order(edits: Seq<Edit>, n: int, i: int, j: int)
    requires
        edits_in_order(edits, n),
        0 <= i < j,
        untouched(edits, i),
    ensures
        i + moved_by(edits, i) < j + moved_by(edits, j),
    decreases edits.len(),
{
    if edits.len() > 0 {
        let rest = edits.drop_first();
        assert forall|k: int| 0 <= k < rest.len() implies 0 <= (#[trigger] rest[k]).start
            <= rest[k].end <= n by {
            assert(rest[k] == edits[k + 1]);
        }
        assert forall|k: int, m: int| 0 <= k < m < rest.len() implies (#[trigger] rest[k]).end <= (
        #[trigger] rest[m]).start by {
            assert(rest[k] == edits[k + 1] && rest[m] == edits[m + 1]);
        }
        assert(!(edits[0].start <= i < edits[0].end));
        if edits[0].end <= i {
            assert forall|k: int| 0 <= k < rest.len() implies !((#[trigger] rest[k]).start <= i
                < rest[k].end) by {
                assert(rest[k] == edits[k + 1]);
            }
            lemma_moved_by_keeps_order(rest, n, i, j);
        } else {
            lemma_moved_by_nothing(edits, i);
            lemma_moved_by_bound(edits, n, i + 1, j);
        }
    }
}

/// What moves a position is what the first edits do and what the others do.
pub proof fn lemma_moved_by_split(edits: Seq<Edit>, k: int, i: int)
    requires
        0 <= k <= edits.len(),
    ensures
        moved_by(edits, i) == moved_by(edits.take(k), i) + moved_by(edits.skip(k), i),
    decreases k,
{
    if k == 0 {
        assert(edits.skip(0) =~= edits);
        assert(edits.take(0).len() == 0);
    } else {
        let rest = edits.drop_first();
        assert(edits.take(k).drop_first() =~= rest.take(k - 1));
        assert(edits.skip(k) =~= rest.skip(k - 1));
        assert(edits.take(k)[0] == edits[0]);
        lemma_moved_by_split(rest, k - 1, i);
    }
}

// The edits of a compilation ----------------------------------------------

/// All edits that compiling a source makes, where it succeeds.
pub open spec fn compile_edits(
    s: Seq<char>,
    block: Option<Library>,
    installed: Seq<Package>,
) -> Seq<Edit> {
    let packages = imported(installed, block_imports(block));
    block_edits(block_span(s, block)) + call_edits(
        call_sites(s),
        block_span(s, block),
        packages,
    )->Ok_0 + splice_edits(s, package_codes(packages))
}

/// The same edits in the order in which they are made.
pub open spec fn sorted_edits(
    s: Seq<char>,
    block: Option<Library>,
    installed: Seq<Package>,
) -> Seq<Edit> {
    ranked::<SourceEdit>(compile_edits(s, block, installed))
}

/// `block`, where there is one, is the parsed library block of `s`, compiling succeeds, and the
/// `functions { }` block does not begin inside the library block (which an odd quote before the
/// library block can bring about: what is a comment there is then a string to one scanner and code
/// to the other).
pub open spec fn compiles(s: Seq<char>, block: Option<Library>, installed: Seq<Package>) -> bool {
    &&& block is Some ==> library_of(s) == Ok::<Option<Library>, LibraryFault>(block)
    &&& compiled(s, block, installed) is Ok
    &&& match (functions_block(s), block_span(s, block)) {
        (Some(open), Some((start, end))) => !(start < open + 1 < end),
        _ => true,
    }
}

/// A run of identifier characters in real code goes on to where they end.
proof fn lemma_ident_run_goes_on(s: Seq<char>, a: int, m: int)
    requires
        0 <= a,
        0 <= m,
        a + m <= s.len(),
        m > 0 ==> is_code(s, a),
        forall|j: int| a <= j < a + m ==> is_ident(#[trigger] s[j]),
    ensures
        ident_end(s, a) == ident_end(s, a + m),
    decreases m,
{
    if m > 0 {
        assert(is_ident(s[a]));
        if m > 1 {
            assert(is_ident(s[a + 1]));
            assert(lex_at(s, a + 1) is Code);
            assert(is_code(s, a + 1));
        }
        lemma_ident_run_goes_on(s, a + 1, m - 1);
    }
}

/// A call site is inside the library block or does not touch it.
pub proof fn lemma_site_apart_from_block(s: Seq<char>, i: int)
    requires
        is_qualifier(s, i),
        library_span(s) is Some,
    ensures
        ({
            let (start, end) = library_span(s)->0;
            let site = call_site(s, i);
            inside(library_span(s), site) || site.end <= start || end <= site.start
        }),
{
    lemma_library_span(s);
    lemma_call_site_bounds(s, i);
    let (a, b) = library_span(s)->0;
    let site = call_site(s, i);
    if site.start < b && a < site.end {
        if site.start <= b - 1 < site.end {
            assert(s[b - 1] == '}');
            assert(is_ident(s[b - 1]) || s[b - 1] == ':');
        }
        if site.start < a {
            reveal_strlit("library");
            let word = s.subrange(a, a + 7);
            assert(word == "library"@);
            assert forall|j: int| a <= j < a + 7 implies is_ident(#[trigger] s[j]) by {
                assert(s[j] == word[j - a]);
            }
            assert(!is_ident(s[a - 1]));
            assert(a - 1 == i || a - 1 == i + 1);
            assert(is_ident(s[a]));
            assert(a == i + 2);
            lemma_ident_run_goes_on(s, a, 7);
            assert(ident_end(s, a + 7) == a + 7);
            assert(site.end == a + 7);
        }
    }
}

/// Each edit of a call replaces a call site outside of the span by its mangled name; and each
/// such call site has its edit.
pub proof fn lemma_call_edits_match_sites(
    sites: Seq<CallSite>,
    span: Option<(int, int)>,
    packages: Seq<Package>,
    k: int,
)
    requires
        call_edits(sites, span, packages) is Ok,
    ensures
        0 <= k < call_edits(sites, span, packages)->Ok_0.len() ==> exists|m: int|
            0 <= m < sites.len() && !inside(span, #[trigger] sites[m]) && is_edit_of(
                call_edits(sites, span, packages)->Ok_0[k],
                sites[m],
            ),
        0 <= k < sites.len() && !inside(span, sites[k]) ==> exists|m: int|
            0 <= m < call_edits(sites, span, packages)->Ok_0.len() && is_edit_of(
                #[trigger] call_edits(sites, span, packages)->Ok_0[m],
                sites[k],
            ),
    decreases sites.len(),
{
    if sites.len() > 0 {
        let front = sites.drop_last();
        let edits = call_edits(sites, span, packages)->Ok_0;
        let before = call_edits(front, span, packages)->Ok_0;
        let last = sites.len() - 1;
        lemma_call_edits_match_sites(front, span, packages, k);
        if 0 <= k < edits.len() {
            if k < before.len() {
                let m = choose|m: int|
                    0 <= m < front.len() && !inside(span, #[trigger] front[m]) && is_edit_of(
                        before[k],
                        front[m],
                    );
                assert(sites[m] == front[m] && edits[k] == before[k]);
                assert(!inside(span, sites[m]) && is_edit_of(edits[k], sites[m]));
            } else {
                assert(!inside(span, sites[last]) && is_edit_of(edits[k], sites[last]));
            }
        }
        if 0 <= k < sites.len() && !inside(span, sites[k]) {
            if k < front.len() {
                assert(front[k] == sites[k]);
                let m = choose|m: int|
                    0 <= m < before.len() && is_edit_of(#[trigger] before[m], front[k]);
                assert(edits[m] == before[m]);
                assert(is_edit_of(edits[m], sites[k]));
            } else {
                assert(is_edit_of(edits[before.len() as int], sites[k]));
            }
        }
    }
}

/// The edit replaces the call site by its mangled name.
pub open spec fn is_edit_of(edit: Edit, site: CallSite) -> bool {
    edit == (Edit {
        start: site.start,
        end: site.end,
        text: mangled(site.package, site.func),
        splice: false,
    })
}

/// The edits of calls do not overlap where the call sites do not.
proof fn lemma_call_edits_apart(
    sites: Seq<CallSite>,
    span: Option<(int, int)>,
    packages: Seq<Package>,
)
    requires
        call_edits(sites, span, packages) is Ok,
        forall|a: int, b: int|
            0 <= a < b < sites.len() ==> (#[trigger] sites[a]).end < (#[trigger] sites[b]).start,
    ensures
        pairwise(call_edits(sites, span, packages)->Ok_0, edits_apart()),
    decreases sites.len(),
{
    if sites.len() > 0 {
        let front = sites.drop_last();
        let edits = call_edits(sites, span, packages)->Ok_0;
        let before = call_edits(front, span, packages)->Ok_0;
        lemma_call_edits_apart(front, span, packages);
        assert forall|a: int, b: int| 0 <= a < b < edits.len() implies edits_apart()(
            #[trigger] edits[a],
            #[trigger] edits[b],
        ) by {
            assert(edits[a] == before[a]);
            if b < before.len() {
                assert(edits[b] == before[b]);
                assert(edits_apart()(before[a], before[b]));
            } else {
                lemma_call_edits_match_sites(front, span, packages, a);
                let m = choose|m: int|
                    0 <= m < front.len() && !inside(span, #[trigger] front[m]) && is_edit_of(
                        before[a],
                        front[m],
                    );
                assert(front[m] == sites[m]);
                assert(sites[m].end < sites.last().start);
            }
        }
    }
}

/// The edits of a compilation do not overlap.
pub proof fn lemma_compile_edits_are_plain(
    s: Seq<char>,
    block: Option<Library>,
    installed: Seq<Package>,
)
    requires
        compiles(s, block, installed),
    ensures
        edits_are_plain(compile_edits(s, block, installed), s.len() as int),
{
    let n = s.len() as int;
    let packages = imported(installed, block_imports(block));
    let span = block_span(s, block);
    let sites = call_sites(s);
    let first = block_edits(span);
    let calls = call_edits(sites, span, packages)->Ok_0;
    let codes = package_codes(packages);
    let splice = splice_edits(s, codes);
    let edits = compile_edits(s, block, installed);
    assert(edits == first + calls + splice);
    if block is Some {
        law_library_block_stands_in_source(s);
    }
    law_call_sites_in_order(s, n);
    lemma_call_edits_apart(sites, span, packages);
    lemma_functions_block(s);
    assert forall|k: int| 0 <= k < calls.len() implies 0 <= (#[trigger] calls[k]).start
        < calls[k].end <= n && (match span {
        Some((start, end)) => calls[k].end <= start || end <= calls[k].start,
        None => true,
    }) && (functions_block(s) matches Some(open) ==> open < calls[k].start || calls[k].end
        <= open) by {
        lemma_call_edits_match_sites(sites, span, packages, k);
        let m = choose|m: int|
            0 <= m < sites.len() && !inside(span, #[trigger] sites[m]) && is_edit_of(
                calls[k],
                sites[m],
            );
        lemma_sites_have_qualifiers(s, n, m);
        let i = choose|i: int|
            i < n && #[trigger] is_qualifier(s, i) && sites[m] == call_site(s, i);
        lemma_call_site_bounds(s, i);
        if span is Some {
            lemma_site_apart_from_block(s, i);
        }
        if let Some(open) = functions_block(s) {
            if calls[k].start <= open < calls[k].end {
                assert(is_ident(s[open]) || s[open] == ':');
            }
        }
    }
    assert forall|k: int| 0 <= k < edits.len() implies 0 <= (#[trigger] edits[k]).start
        <= edits[k].end <= n by {
        if k < first.len() {
            assert(edits[k] == first[k]);
        } else if k < first.len() + calls.len() {
            assert(edits[k] == calls[k - first.len()]);
        } else {
            assert(edits[k] == splice[k - first.len() - calls.len()]);
        }
    }
    assert forall|a: int, b: int| 0 <= a < b < edits.len() implies edits_apart()(
        #[trigger] edits[a],
        #[trigger] edits[b],
    ) by {
        let m = first.len() as int;
        let w = m + calls.len();
        if b < m {
        } else if b < w {
            assert(edits[b] == calls[b - m]);
            if a >= m {
                assert(edits[a] == calls[a - m]);
                assert(edits_apart()(calls[a - m], calls[b - m]));
            } else {
                assert(edits[a] == first[a]);
            }
        } else {
            assert(edits[b] == splice[b - w]);
            if a < m {
                assert(edits[a] == first[a]);
            } else if a < w {
                assert(edits[a] == calls[a - m]);
            }
        }
    }
}

/// The opening brace of the `functions { }` block is one.
pub proof fn lemma_functions_block(s: Seq<char>)
    ensures
        functions_block(s) matches Some(open) ==> 0 <= open < s.len() && s[open] == '{',
{
    let p = functions_header(s);
    lemma_first_found(p, 0, s.len() as int);
    if let Some(i) = first_from(p, 0, s.len() as int) {
        assert(p(i));
        lemma_skip_space_bounds(s, i + "functions"@.len());
    }
}

// Laws of compiling -------------------------------------------------------

/// Everything outside of the library block and of `pkg::func` call sites passes through: each
/// such character is in the output, moved by what was put in and taken out before it.
pub proof fn law_rest_passes_through(
    s: Seq<char>,
    block: Option<Library>,
    installed: Seq<Package>,
    i: int,
)
    requires
        compiles(s, block, installed),
        0 <= i < s.len(),
        block_span(s, block) matches Some((start, end)) ==> !(start <= i < end),
        forall|k: int|
            0 <= k < call_sites(s).len() ==> !((#[trigger] call_sites(s)[k]).start <= i
                < call_sites(s)[k].end),
    ensures
        ({
            let out = compiled(s, block, installed)->Ok_0.source;
            let at = i + moved_by(sorted_edits(s, block, installed), i);
            0 <= at < out.len() && out[at] == s[i]
        }),
{
    let edits = compile_edits(s, block, installed);
    let sorted = sorted_edits(s, block, installed);
    lemma_compile_edits_are_plain(s, block, installed);
    lemma_sorted_in_order(edits, s.len() as int);
    lemma_untouched(s, block, installed, i);
    lemma_edited_places(s, sorted, 0);
}

/// What is neither in the library block nor in a call site is in the range of no edit.
proof fn lemma_untouched(s: Seq<char>, block: Option<Library>, installed: Seq<Package>, i: int)
    requires
        compiles(s, block, installed),
        block_span(s, block) matches Some((start, end)) ==> !(start <= i < end),
        forall|k: int|
            0 <= k < call_sites(s).len() ==> !((#[trigger] call_sites(s)[k]).start <= i
                < call_sites(s)[k].end),
    ensures
        untouched(sorted_edits(s, block, installed), i),
{
    let sorted = sorted_edits(s, block, installed);
    let edits = compile_edits(s, block, installed);
    let span = block_span(s, block);
    let packages = imported(installed, block_imports(block));
    let sites = call_sites(s);
    let first = block_edits(span);
    let calls = call_edits(sites, span, packages)->Ok_0;
    let splice = splice_edits(s, package_codes(packages));
    assert forall|k: int| 0 <= k < sorted.len() implies !((#[trigger] sorted[k]).start <= i
        < sorted[k].end) by {
        lemma_sorted_contains(edits, sorted[k], k);
        let m = choose|m: int| 0 <= m < edits.len() && edits[m] == sorted[k];
        if m < first.len() {
            assert(edits[m] == first[m]);
        } else if m < first.len() + calls.len() {
            assert(edits[m] == calls[m - first.len()]);
            lemma_call_edits_match_sites(sites, span, packages, m - first.len());
        } else {
            assert(edits[m] == splice[m - first.len() - calls.len()]);
        }
    }
}

/// What passes through keeps its order.
pub proof fn law_rest_keeps_its_order(
    s: Seq<char>,
    block: Option<Library>,
    installed: Seq<Package>,
    i: int,
    j: int,
)
    requires
        compiles(s, block, installed),
        0 <= i < j < s.len(),
        block_span(s, block) matches Some((start, end)) ==> !(start <= i < end),
        forall|k: int|
            0 <= k < call_sites(s).len() ==> !((#[trigger] call_sites(s)[k]).start <= i
                < call_sites(s)[k].end),
    ensures
        i + moved_by(sorted_edits(s, block, installed), i) < j + moved_by(
            sorted_edits(s, block, installed),
            j,
        ),
{
    let edits = compile_edits(s, block, installed);
    lemma_compile_edits_are_plain(s, block, installed);
    lemma_sorted_in_order(edits, s.len() as int);
    lemma_untouched(s, block, installed, i);
    lemma_moved_by_keeps_order(sorted_edits(s, block, installed), s.len() as int, i, j);
}

/// Nothing but the edits changes the length: the output is as long as the source with the
/// library block and the call sites taken out and the mangled names and the packages' code
/// put in.
pub proof fn law_output_has_nothing_else(
    s: Seq<char>,
    block: Option<Library>,
    installed: Seq<Package>,
)
    requires
        compiles(s, block, installed),
    ensures
        compiled(s, block, installed)->Ok_0.source.len() == s.len() + moved_by(
            sorted_edits(s, block, installed),
            s.len() as int,
        ),
{
    let edits = compile_edits(s, block, installed);
    lemma_compile_edits_are_plain(s, block, installed);
    lemma_sorted_in_order(edits, s.len() as int);
    lemma_edited_places(s, sorted_edits(s, block, installed), 0);
}

/// Every call site outside of the library block is rewritten: where it stood, its mangled name
/// stands in the output.
pub proof fn law_calls_are_rewritten(
    s: Seq<char>,
    block: Option<Library>,
    installed: Seq<Package>,
    k: int,
)
    requires
        compiles(s, block, installed),
        0 <= k < call_sites(s).len(),
        !inside(block_span(s, block), call_sites(s)[k]),
    ensures
        ({
            let site = call_sites(s)[k];
            occurs_at(
                compiled(s, block, installed)->Ok_0.source,
                mangled(site.package, site.func),
                site.start + moved_by(sorted_edits(s, block, installed), site.start),
            )
        }),
{
    let n = s.len() as int;
    let edits = compile_edits(s, block, installed);
    let sorted = sorted_edits(s, block, installed);
    let span = block_span(s, block);
    let packages = imported(installed, block_imports(block));
    let sites = call_sites(s);
    let site = sites[k];
    let first = block_edits(span);
    let calls = call_edits(sites, span, packages)->Ok_0;
    lemma_compile_edits_are_plain(s, block, installed);
    lemma_sorted_in_order(edits, n);
    lemma_call_edits_match_sites(sites, span, packages, k);
    let m = choose|m: int| 0 <= m < calls.len() && is_edit_of(#[trigger] calls[m], site);
    let e = calls[m];
    assert(edits[first.len() + m] == e);
    lemma_contained_is_sorted(edits, e);
    let at = choose|at: int| 0 <= at < sorted.len() && sorted[at] == e;
    lemma_edited_places(s, sorted, 0);
    lemma_sites_have_qualifiers(s, n, k);
    let i = choose|i: int| i < n && #[trigger] is_qualifier(s, i) && site == call_site(s, i);
    lemma_call_site_bounds(s, i);
    lemma_moved_by_split(sorted, at, site.start);
    let later = sorted.skip(at);
    assert forall|j: int| 0 <= j < later.len() implies site.start < (#[trigger] later[j]).end by {
        assert(later[j] == sorted[at + j]);
        if j > 0 {
            assert(sorted[at].end <= sorted[at + j].start);
        }
    }
    lemma_moved_by_nothing(later, site.start);
}

/// Where the packages' code stands in the output: behind the opening brace of the source's own
/// `functions { }` block, or at the start of the output.
pub open spec fn splice_place(
    s: Seq<char>,
    block: Option<Library>,
    installed: Seq<Package>,
) -> int {
    match functions_block(s) {
        Some(open) => open + moved_by(sorted_edits(s, block, installed), open) + 1,
        None => 0,
    }
}

/// The code of the imported packages, joined, in the order in which the packages are given, is
/// the first thing in the source's own `functions { }` block, or stands in one of its own at
/// the start of the output.
pub proof fn law_package_code_is_spliced(
    s: Seq<char>,
    block: Option<Library>,
    installed: Seq<Package>,
)
    requires
        compiles(s, block, installed),
        imported(installed, block_imports(block)).len() > 0,
    ensures
        ({
            let codes = package_codes(imported(installed, block_imports(block)));
            let out = compiled(s, block, installed)->Ok_0.source;
            let at = splice_place(s, block, installed);
            &&& occurs_at(out, splice_head(s) + join(codes, "\n"@) + splice_tail(s), at)
            &&& functions_block(s) is Some ==> at > 0 && out[at - 1] == '{'
        }),
{
    let n = s.len() as int;
    let edits = compile_edits(s, block, installed);
    let sorted = sorted_edits(s, block, installed);
    let packages = imported(installed, block_imports(block));
    let codes = package_codes(packages);
    assert(codes.len() == packages.len());
    lemma_compile_edits_are_plain(s, block, installed);
    lemma_sorted_in_order(edits, n);
    let e = splice_edits(s, codes)[0];
    assert(edits[edits.len() - 1] == e);
    lemma_contained_is_sorted(edits, e);
    let is_splice = |i: int| sorted[i] == e;
    lemma_first_found(is_splice, 0, sorted.len() as int);
    let some = choose|k: int| 0 <= k < sorted.len() && sorted[k] == e;
    assert(is_splice(some));
    let k = first_from(is_splice, 0, sorted.len() as int)->0;
    assert forall|j: int| 0 <= j < k implies (#[trigger] sorted[j]).start < sorted[j].end
        <= e.start by {
        assert(!is_splice(j));
        assert(sorted[j].end <= sorted[k].start);
        lemma_sorted_contains(edits, sorted[j], j);
        lemma_edits_but_splice(s, block, installed, sorted[j]);
    }
    lemma_edited_places(s, sorted, 0);
    assert(sorted[k].text == splice_head(s) + join(codes, "\n"@) + splice_tail(s));
    lemma_functions_block(s);
    match functions_block(s) {
        None => {
            if k > 0 {
                assert(0 <= sorted[0].start < sorted[0].end <= 0);
            }
            assert(sorted.take(0).len() == 0);
        },
        Some(open) => {
            let front = sorted.take(k);
            let later = sorted.skip(k);
            lemma_functions_brace_untouched(s, block, installed, open);
            assert forall|j: int| 0 <= j < front.len() implies (#[trigger] front[j]).end <= open by {
                assert(front[j] == sorted[j]);
            }
            lemma_moved_by_all(front, open, open + 1);
            assert forall|j: int| 0 <= j < later.len() implies open < (#[trigger] later[j]).end by {
                assert(later[j] == sorted[k + j]);
                if j > 0 {
                    assert(sorted[k].end <= sorted[k + j].start);
                }
            }
            lemma_moved_by_nothing(later, open);
            lemma_moved_by_split(sorted, k, open);
        },
    }
}

/// The `functions { }` block that holds the packages' code, where there is any.
pub open spec fn functions_text(codes: Seq<Seq<char>>) -> Seq<char> {
    if codes.len() == 0 {
        seq![]
    } else {
        "functions {\n"@ + join(codes, "\n"@) + "\n}\n"@
    }
}

/// `s` with its library block deleted, and with each call outside of that replaced by its mangled
/// name.
pub open spec fn rewritten(
    s: Seq<char>,
    block: Option<Library>,
    installed: Seq<Package>,
) -> Seq<char> {
    let span = block_span(s, block);
    let packages = imported(installed, block_imports(block));
    edited(s, block_edits(span) + call_edits(call_sites(s), span, packages)->Ok_0)
}

/// Without a `functions { }` block of its own, a source comes out as one that holds the code of
/// the imported packages, in the order in which these are given, followed by the source with its
/// library block deleted and its calls rewritten.
pub proof fn law_output_is_functions_and_rest(
    s: Seq<char>,
    block: Option<Library>,
    installed: Seq<Package>,
)
    requires
        compiles(s, block, installed),
        functions_block(s) is None,
    ensures
        compiled(s, block, installed)->Ok_0.source == functions_text(
            package_codes(imported(installed, block_imports(block))),
        ) + rewritten(s, block, installed),
{
    let n = s.len() as int;
    let span = block_span(s, block);
    let packages = imported(installed, block_imports(block));
    let codes = package_codes(packages);
    let first = block_edits(span);
    let calls = call_edits(call_sites(s), span, packages)->Ok_0;
    let plain = first + calls;
    let splice = splice_edits(s, codes);
    let edits = compile_edits(s, block, installed);
    let out = compiled(s, block, installed)->Ok_0.source;
    if codes.len() == 0 {
        assert(edits =~= plain);
        assert(functions_text(codes) + rewritten(s, block, installed) =~= rewritten(
            s,
            block,
            installed,
        ));
    } else {
        let e = splice[0];
        assert(edits =~= plain.push(e));
        lemma_compile_edits_are_plain(s, block, installed);
        lemma_call_edits_plain(call_sites(s), span, packages);
        assert forall|k: int| 0 <= k < plain.len() implies !<SourceEdit as Ranked>::ranks_at_most(
            #[trigger] plain[k],
            e,
        ) by {
            assert(edits[k] == plain[k]);
            if k >= first.len() {
                assert(plain[k] == calls[k - first.len()]);
            }
            assert(!plain[k].splice);
            assert(edits.contains(plain[k]));
            lemma_edits_but_splice(s, block, installed, plain[k]);
        }
        lemma_ranked_first(plain, e);
        let sorted = ranked::<SourceEdit>(plain);
        assert((seq![e] + sorted).drop_first() =~= sorted);
        assert(s.subrange(0, 0) + e.text =~= e.text);
        assert(out =~= e.text + edited_from(s, sorted, 0));
    }
}

/// An edit that comes before all others is sorted to the front.
proof fn lemma_ranked_first(edits: Seq<Edit>, e: Edit)
    requires
        forall|k: int|
            0 <= k < edits.len() ==> !<SourceEdit as Ranked>::ranks_at_most(
                #[trigger] edits[k],
                e,
            ),
    ensures
        ranked::<SourceEdit>(edits.push(e)) == seq![e] + ranked::<SourceEdit>(edits),
    decreases edits.len(),
{
    let all = edits.push(e);
    if edits.len() == 0 {
        assert(all.drop_first() =~= seq![]);
        assert(ranked::<SourceEdit>(all.drop_first()) =~= seq![]);
        assert(ranked::<SourceEdit>(all) =~= seq![e]);
        assert(seq![e] + ranked::<SourceEdit>(edits) =~= seq![e]);
    } else {
        let rest = edits.drop_first();
        assert forall|k: int| 0 <= k < rest.len() implies !<SourceEdit as Ranked>::ranks_at_most(
            #[trigger] rest[k],
            e,
        ) by {
            assert(rest[k] == edits[k + 1]);
        }
        lemma_ranked_first(rest, e);
        assert(all.drop_first() =~= rest.push(e));
        let sorted = ranked::<SourceEdit>(rest);
        assert(all[0] == edits[0]);
        assert((seq![e] + sorted).drop_first() =~= sorted);
    }
}

/// The opening brace of the `functions { }` block is in the range of no edit.
proof fn lemma_functions_brace_untouched(
    s: Seq<char>,
    block: Option<Library>,
    installed: Seq<Package>,
    open: int,
)
    requires
        compiles(s, block, installed),
        functions_block(s) == Some(open),
    ensures
        untouched(sorted_edits(s, block, installed), open),
{
    let n = s.len() as int;
    lemma_functions_block(s);
    if block is Some {
        law_library_block_stands_in_source(s);
    }
    assert forall|k: int| 0 <= k < call_sites(s).len() implies !((#[trigger] call_sites(s)[k]).start
        <= open < call_sites(s)[k].end) by {
        lemma_sites_have_qualifiers(s, n, k);
        let i = choose|i: int|
            i < n && #[trigger] is_qualifier(s, i) && call_sites(s)[k] == call_site(s, i);
        lemma_call_site_bounds(s, i);
        if call_sites(s)[k].start <= open < call_sites(s)[k].end {
            assert(is_ident(s[open]) || s[open] == ':');
        }
    }
    lemma_untouched(s, block, installed, open);
}

/// Every edit of a compilation but that of the packages' code takes something away.
proof fn lemma_edits_but_splice(
    s: Seq<char>,
    block: Option<Library>,
    installed: Seq<Package>,
    e: Edit,
)
    requires
        compiles(s, block, installed),
        compile_edits(s, block, installed).contains(e),
    ensures
        e.start < e.end || splice_edits(
            s,
            package_codes(imported(installed, block_imports(block))),
        ).contains(e),
        splice_edits(
            s,
            package_codes(imported(installed, block_imports(block))),
        ).len() <= 1,
{
    let n = s.len() as int;
    let span = block_span(s, block);
    let packages = imported(installed, block_imports(block));
    let sites = call_sites(s);
    let first = block_edits(span);
    let calls = call_edits(sites, span, packages)->Ok_0;
    let splice = splice_edits(s, package_codes(packages));
    let edits = compile_edits(s, block, installed);
    let k = choose|k: int| 0 <= k < edits.len() && edits[k] == e;
    if k < first.len() {
        assert(edits[k] == first[k]);
        law_library_block_stands_in_source(s);
    } else if k < first.len() + calls.len() {
        assert(edits[k] == calls[k - first.len()]);
        lemma_call_edits_match_sites(sites, span, packages, k - first.len());
        let m = choose|m: int|
            0 <= m < sites.len() && !inside(span, #[trigger] sites[m]) && is_edit_of(e, sites[m]);
        lemma_sites_have_qualifiers(s, n, m);
        let i = choose|i: int|
            i < n && #[trigger] is_qualifier(s, i) && sites[m] == call_site(s, i);
        lemma_call_site_bounds(s, i);
    } else {
        assert(edits[k] == splice[k - first.len() - calls.len()]);
    }
}

/// Edits that end at a position or before move it as they move a later one.
proof fn lemma_moved_by_all(edits: Seq<Edit>, i: int, j: int)
    requires
        i <= j,
        forall|k: int| 0 <= k < edits.len() ==> (#[trigger] edits[k]).end <= i,
    ensures
        moved_by(edits, i) == moved_by(edits, j),
    decreases edits.len(),
{
    if edits.len() > 0 {
        let rest = edits.drop_first();
        assert(edits[0].end <= i);
        assert forall|k: int| 0 <= k < rest.len() implies (#[trigger] rest[k]).end <= i by {
            assert(rest[k] == edits[k + 1]);
        }
        lemma_moved_by_all(rest, i, j);
    }
}

/// A source without a library block and without calls passes through unchanged, whatever is
/// installed.
pub proof fn law_plain_source_passes_through(s: Seq<char>, installed: Seq<Package>)
    requires
        export_fault(installed) is None,
        call_sites(s).len() == 0,
    ensures
        compiled(s, None, installed) == Ok::<Compiled, CodegenFault>(
            Compiled { source: s, package_lines: seq![] },
        ),
{
    lemma_nothing_imported(installed);
    let edits = compile_edits(s, None, installed);
    assert(package_codes(imported(installed, seq![])).len() == 0);
    assert(edits =~= seq![]);
    assert(s.skip(0) =~= s);
}

/// Without imports nothing is imported.
proof fn lemma_nothing_imported(installed: Seq<Package>)
    ensures
        imported(installed, seq![]) == Seq::<Package>::empty(),
    decreases installed.len(),
{
    if installed.len() > 0 {
        lemma_nothing_imported(installed.drop_last());
        assert(!imports_package(seq![], installed.last().name));
    }
}

/// A library block without imports is deleted, and nothing else changes.
pub proof fn law_empty_block_is_deleted(s: Seq<char>, block: Library, installed: Seq<Package>)
    requires
        library_of(s) == Ok::<Option<Library>, LibraryFault>(Some(block)),
        block.imports.len() == 0,
        export_fault(installed) is None,
        forall|k: int|
            0 <= k < call_sites(s).len() ==> inside(
                block_span(s, Some(block)),
                #[trigger] call_sites(s)[k],
            ),
    ensures
        ({
            let (start, end) = block_span(s, Some(block))->0;
            compiled(s, Some(block), installed) == Ok::<Compiled, CodegenFault>(
                Compiled { source: s.take(start) + s.skip(end), package_lines: seq![] },
            )
        }),
{
    law_library_block_stands_in_source(s);
    let span = block_span(s, Some(block));
    let (start, end) = span->0;
    assert(block.imports =~= seq![]);
    lemma_nothing_imported(installed);
    let packages = imported(installed, block.imports);
    lemma_calls_inside(call_sites(s), span, packages);
    let edits = compile_edits(s, Some(block), installed);
    let e = Edit { start, end, text: seq![], splice: false };
    assert(package_codes(packages).len() == 0);
    assert(edits =~= seq![e]);
    let sorted = ranked::<SourceEdit>(edits);
    assert(edits.drop_first() =~= seq![]);
    assert(ranked::<SourceEdit>(edits.drop_first()) =~= seq![]);
    assert(sorted =~= seq![e]);
    assert(sorted.drop_first() =~= seq![]);
    assert(edited_from(s, sorted.drop_first(), end) == s.skip(end));
    assert(sorted[0] == e);
    assert(edited_from(s, sorted, 0) == s.subrange(0, start) + e.text + s.skip(end));
    assert(s.subrange(0, start) + e.text + s.skip(end) =~= s.take(start) + s.skip(end));
    assert(edited_before_splice(s, sorted.drop_first(), end) is None);
}

/// Call sites inside the span need no edits.
proof fn lemma_calls_inside(
    sites: Seq<CallSite>,
    span: Option<(int, int)>,
    packages: Seq<Package>,
)
    requires
        forall|k: int| 0 <= k < sites.len() ==> inside(span, #[trigger] sites[k]),
    ensures
        call_edits(sites, span, packages) == Ok::<Seq<Edit>, CodegenFault>(seq![]),
    decreases sites.len(),
{
    if sites.len() > 0 {
        let front = sites.drop_last();
        assert forall|k: int| 0 <= k < front.len() implies inside(span, #[trigger] front[k]) by {
            assert(front[k] == sites[k]);
        }
        lemma_calls_inside(front, span, packages);
        assert(inside(span, sites[sites.len() - 1]));
    }
}

/// `exports` is the privacy boundary: compiling succeeds only if every call outside of the
/// library block is of a function that an imported package exports.
pub proof fn law_only_exports_are_called(
    s: Seq<char>,
    block: Option<Library>,
    installed: Seq<Package>,
    k: int,
)
    requires
        compiled(s, block, installed) is Ok,
        0 <= k < call_sites(s).len(),
        !inside(block_span(s, block), call_sites(s)[k]),
    ensures
        ({
            let site = call_sites(s)[k];
            &&& imports_package(block_imports(block), site.package)
            &&& find_package(
                imported(installed, block_imports(block)),
                site.package,
            ) matches Some(package) && package.name == site.package && package.exported.contains(
                site.func,
            ) && installed.contains(package)
        }),
{
    let packages = imported(installed, block_imports(block));
    let site = call_sites(s)[k];
    lemma_called_is_exported(call_sites(s), block_span(s, block), packages, k);
    lemma_find_package(packages, site.package);
    let package = find_package(packages, site.package)->0;
    lemma_imported_members(installed, block_imports(block), package);
}

/// An edited call is of an exported function.
proof fn lemma_called_is_exported(
    sites: Seq<CallSite>,
    span: Option<(int, int)>,
    packages: Seq<Package>,
    k: int,
)
    requires
        call_edits(sites, span, packages) is Ok,
        0 <= k < sites.len(),
        !inside(span, sites[k]),
    ensures
        find_package(packages, sites[k].package) matches Some(package) && package.exported.contains(
            sites[k].func,
        ),
    decreases sites.len(),
{
    if k < sites.len() - 1 {
        lemma_called_is_exported(sites.drop_last(), span, packages, k);
    }
}

/// A package that is found has the name, and is one of those given.
proof fn lemma_find_package(packages: Seq<Package>, name: Seq<char>)
    ensures
        find_package(packages, name) matches Some(package) ==> package.name == name
            && packages.contains(package),
    decreases packages.len(),
{
    if packages.len() > 0 {
        lemma_find_package(packages.drop_last(), name);
        assert(packages.contains(packages.last()));
        if let Some(package) = find_package(packages.drop_last(), name) {
            let i = choose|i: int|
                0 <= i < packages.len() - 1 && packages.drop_last()[i] == package;
            assert(packages[i] == package);
        }
    }
}

/// What is imported is installed, and named by an import.
proof fn lemma_imported_members(installed: Seq<Package>, imports: Seq<Import>, package: Package)
    requires
        imported(installed, imports).contains(package),
    ensures
        installed.contains(package),
        imports_package(imports, package.name),
    decreases installed.len(),
{
    if installed.len() > 0 {
        let before = imported(installed.drop_last(), imports);
        let all = imported(installed, imports);
        let k = choose|k: int| 0 <= k < all.len() && all[k] == package;
        if k < before.len() {
            assert(before[k] == package);
            lemma_imported_members(installed.drop_last(), imports, package);
            let i = choose|i: int|
                0 <= i < installed.len() - 1 && installed.drop_last()[i] == package;
            assert(installed[i] == package);
        } else {
            assert(installed[installed.len() - 1] == package);
        }
    }
}

/// Compiling succeeds only if every import is installed.
pub proof fn law_imports_are_installed(
    s: Seq<char>,
    block: Option<Library>,
    installed: Seq<Package>,
    k: int,
)
    requires
        compiled(s, block, installed) is Ok,
        0 <= k < block_imports(block).len(),
    ensures
        has_package(installed, block_imports(block)[k].name),
{
    let imports = block_imports(block);
    let p = unresolved(imports, installed);
    lemma_first_found(p, 0, imports.len() as int);
    assert(!p(k));
}

/// Compiling succeeds only if every installed package defines what it exports.
pub proof fn law_exports_are_defined(
    s: Seq<char>,
    block: Option<Library>,
    installed: Seq<Package>,
    k: int,
    m: int,
)
    requires
        compiled(s, block, installed) is Ok,
        0 <= k < installed.len(),
        0 <= m < installed[k].exported.len(),
    ensures
        defines(installed[k], installed[k].exported[m]),
{
    let p = has_undefined(installed);
    lemma_first_found(p, 0, installed.len() as int);
    assert(!p(k));
    let q = undefined_export(installed[k]);
    lemma_first_found(q, 0, installed[k].exported.len() as int);
    assert(!q(m));
}

/// Compiling succeeds only if the mangled names of the imported packages' exports are unique:
/// no two packages take the same one.
pub proof fn law_mangled_names_are_unique(
    s: Seq<char>,
    block: Option<Library>,
    installed: Seq<Package>,
    i: int,
    j: int,
)
    requires
        compiled(s, block, installed) is Ok,
        0 <= i < j < claims(imported(installed, block_imports(block))).len(),
    ensures
        ({
            let taken = claims(imported(installed, block_imports(block)));
            taken[i].mangled == taken[j].mangled ==> taken[i].package == taken[j].package
        }),
{
    let taken = claims(imported(installed, block_imports(block)));
    let p = clashes(taken);
    lemma_first_found(p, 0, taken.len() as int);
    assert(!p(j));
}

/// Within a package, different functions have different mangled names.
pub proof fn law_mangling_tells_functions_apart(package: Seq<char>, f: Seq<char>, g: Seq<char>)
    requires
        mangled(package, f) == mangled(package, g),
    ensures
        f == g,
{
    let n = (package + "__"@).len() as int;
    assert(mangled(package, f).skip(n) =~= f);
    assert(mangled(package, g).skip(n) =~= g);
}

/// The same source, block and packages always give the same output, character for character.
pub proof fn law_compiling_is_deterministic(
    s: Seq<char>,
    block: Option<Library>,
    installed: Seq<Package>,
    first: Result<GeneratedStan, CodegenError>,
    second: Result<GeneratedStan, CodegenError>,
)
    requires
        deep_result(first) == compiled(s, block, installed),
        deep_result(second) == compiled(s, block, installed),
    ensures
        first is Ok <==> second is Ok,
        first is Ok ==> first->Ok_0.source@ == second->Ok_0.source@,
        deep_result(first) == deep_result(second),
{
}

} // verus!
