//! What a compiled source is, character for character.
use vstd::prelude::*;

use crate::codegen::{
    block_edits, block_imports, block_span, compiled, splice_edits, splice_head, splice_tail,
    Package,
};
use crate::codegen::calls::{call_edits, inside};
use crate::codegen::edits::{Edit, SourceEdit};
use crate::codegen::functions_block::functions_block;
use crate::codegen::imports::imported;
use crate::codegen::mangling::{mangled_names, package_code, package_codes};
use crate::codegen::rename::{
    call_site, call_sites, callee, is_qualifier, mangled, replaced_from, CallSite,
};
use crate::laws::compiling::{
    compile_edits, compiles, is_edit_of, law_calls_are_rewritten, law_output_has_nothing_else,
    law_package_code_is_spliced, law_rest_passes_through, lemma_call_edits_match_sites,
    lemma_functions_block, lemma_moved_by_split, lemma_site_apart_from_block, moved_by,
    sorted_edits, splice_place,
};
use crate::laws::importing::{
    is_led_to, is_word_at, law_call_has_a_parenthesis, law_listed_calls_are_calls,
};
use crate::laws::loading::code_of_each;
use crate::laws::parsing::{
    law_call_sites_in_order, law_library_block_stands_in_source, lemma_call_site_bounds,
    lemma_sites_have_qualifiers,
};
use crate::laws::renaming::{is_sound_package, is_word, lemma_callee, lemma_exports_are_replaceable};
use crate::order::{insert_ranked, ranked, Ranked};
use crate::parser::brace_match::{is_code, is_ident};
use crate::parser::library_block::Library;
use crate::text::join;

verus! {

/// The call site stands between the ends of the span.
pub open spec fn is_within(span: Option<(int, int)>, site: CallSite) -> bool {
    span matches Some((start, end)) && start <= site.start && site.end <= end
}

/// Position `i` holds one of the two colons of a call outside of the span.
pub open spec fn is_call_colon(s: Seq<char>, span: Option<(int, int)>, i: int) -> bool {
    exists|k: int|
        0 <= k < call_sites(s).len() && !is_within(span, #[trigger] call_sites(s)[k]) && (i
            == call_sites(s)[k].start + call_sites(s)[k].package.len() || i
            == call_sites(s)[k].start + call_sites(s)[k].package.len() + 1)
}

/// `s` with an underscore for each colon of a call outside of the span, so that `package::func` is
/// `package__func`.
pub open spec fn with_mangled_calls(s: Seq<char>, span: Option<(int, int)>) -> Seq<char> {
    Seq::new(
        s.len(),
        |i: int|
            if is_call_colon(s, span, i) {
                '_'
            } else {
                s[i]
            },
    )
}

/// What is put in of the packages' code: it stands on lines of its own in the `functions { }` block
/// of the source, or in one that is made for it.
pub open spec fn put_in(s: Seq<char>, codes: Seq<Seq<char>>) -> Seq<char> {
    if codes.len() == 0 {
        seq![]
    } else if functions_block(s) is Some {
        "\n"@ + join(codes, "\n"@) + "\n"@
    } else {
        "functions {\n"@ + join(codes, "\n"@) + "\n}\n"@
    }
}

/// Where it is put in: right behind the brace of the `functions { }` block, or at the start.
pub open spec fn put_at(s: Seq<char>) -> int {
    match functions_block(s) {
        Some(open) => open + 1,
        None => 0,
    }
}

/// `t` without what stands from `start` to before `end`, and with the text at position `at`, which
/// is not in between.
pub open spec fn cut_and_filled(
    t: Seq<char>,
    start: int,
    end: int,
    at: int,
    text: Seq<char>,
) -> Seq<char> {
    if at <= start {
        t.take(at) + text + t.subrange(at, start) + t.skip(end)
    } else {
        t.take(start) + t.subrange(end, at) + text + t.skip(at)
    }
}

/// The span, or an empty one where there is none.
pub open spec fn cut_of(span: Option<(int, int)>) -> (int, int) {
    match span {
        Some(both) => both,
        None => (0, 0),
    }
}

/// By how much position `i` moves: forward by what is put in before it, and back by what is taken
/// out before it.
spec fn shift_of(start: int, end: int, at: int, n: int, i: int) -> int {
    (if end <= i {
        start - end
    } else {
        0
    }) + (if at <= i {
        n
    } else {
        0
    })
}

/// What moves a position does not depend on the order of the edits.
proof fn lemma_moved_by_ranked(edits: Seq<Edit>, i: int)
    ensures
        moved_by(ranked::<SourceEdit>(edits), i) == moved_by(edits, i),
    decreases edits.len(),
{
    if edits.len() > 0 {
        lemma_moved_by_ranked(edits.drop_first(), i);
        lemma_moved_by_inserted(edits[0], ranked::<SourceEdit>(edits.drop_first()), i);
    }
}

/// One more edit moves a position by what it does alone, wherever it stands.
proof fn lemma_moved_by_inserted(e: Edit, edits: Seq<Edit>, i: int)
    ensures
        moved_by(insert_ranked::<SourceEdit>(e, edits), i) == moved_by(edits, i) + (if e.end <= i {
            e.text.len() - (e.end - e.start)
        } else {
            0
        }),
    decreases edits.len(),
{
    let all = insert_ranked::<SourceEdit>(e, edits);
    if edits.len() == 0 || <SourceEdit as Ranked>::ranks_at_most(e, edits[0]) {
        assert(all.drop_first() =~= edits);
        assert(all[0] == e);
    } else {
        lemma_moved_by_inserted(e, edits.drop_first(), i);
        assert(all.drop_first() =~= insert_ranked::<SourceEdit>(e, edits.drop_first()));
        assert(all[0] == edits[0]);
    }
}

/// What two lists of edits do is what the one does and what the other does.
proof fn lemma_moved_by_both(a: Seq<Edit>, b: Seq<Edit>, i: int)
    ensures
        moved_by(a + b, i) == moved_by(a, i) + moved_by(b, i),
{
    lemma_moved_by_split(a + b, a.len() as int, i);
    assert((a + b).take(a.len() as int) =~= a);
    assert((a + b).skip(a.len() as int) =~= b);
}

/// Edits that put in as much as they take out move nothing.
proof fn lemma_moved_by_even(edits: Seq<Edit>, i: int)
    requires
        forall|k: int|
            0 <= k < edits.len() ==> (#[trigger] edits[k]).text.len() == edits[k].end
                - edits[k].start,
    ensures
        moved_by(edits, i) == 0,
    decreases edits.len(),
{
    if edits.len() > 0 {
        let rest = edits.drop_first();
        assert forall|k: int| 0 <= k < rest.len() implies (#[trigger] rest[k]).text.len()
            == rest[k].end - rest[k].start by {
            assert(rest[k] == edits[k + 1]);
        }
        lemma_moved_by_even(rest, i);
        assert(edits[0].text.len() == edits[0].end - edits[0].start);
    }
}

/// By how much compiling moves a position.
proof fn lemma_moved(s: Seq<char>, block: Option<Library>, installed: Seq<Package>, i: int)
    requires
        compiles(s, block, installed),
    ensures
        ({
            let (start, end) = cut_of(block_span(s, block));
            let codes = package_codes(imported(installed, block_imports(block)));
            moved_by(sorted_edits(s, block, installed), i) == shift_of(
                start,
                end,
                put_at(s),
                put_in(s, codes).len() as int,
                i,
            )
        }),
{
    reveal_strlit("__");
    reveal_strlit("::");
    let n = s.len() as int;
    let span = block_span(s, block);
    let (start, end) = cut_of(span);
    let packages = imported(installed, block_imports(block));
    let codes = package_codes(packages);
    let sites = call_sites(s);
    let first = block_edits(span);
    let calls = call_edits(sites, span, packages)->Ok_0;
    let splice = splice_edits(s, codes);
    lemma_moved_by_ranked(compile_edits(s, block, installed), i);
    lemma_moved_by_both(first + calls, splice, i);
    lemma_moved_by_both(first, calls, i);
    assert forall|k: int| 0 <= k < calls.len() implies (#[trigger] calls[k]).text.len()
        == calls[k].end - calls[k].start by {
        lemma_call_edits_match_sites(sites, span, packages, k);
        let m = choose|m: int|
            0 <= m < sites.len() && !inside(span, #[trigger] sites[m]) && is_edit_of(
                calls[k],
                sites[m],
            );
        law_listed_calls_are_calls(s, m);
    }
    lemma_moved_by_even(calls, i);
    if span is Some {
        assert(first[0] == (Edit { start, end, text: seq![], splice: false }));
        assert(moved_by(first.drop_first(), i) == 0);
    } else {
        assert(moved_by(first, i) == 0);
    }
    if codes.len() > 0 {
        assert(splice[0].text =~= put_in(s, codes));
        assert(moved_by(splice.drop_first(), i) == 0);
    } else {
        assert(moved_by(splice, i) == 0);
    }
}

/// Outside of the library block each character of the source, with calls mangled, is in the output,
/// moved by what is put in and taken out before it.
proof fn lemma_char_comes_out(
    s: Seq<char>,
    block: Option<Library>,
    installed: Seq<Package>,
    i: int,
)
    requires
        compiles(s, block, installed),
        0 <= i < s.len(),
        block_span(s, block) matches Some((start, end)) ==> !(start <= i < end),
    ensures
        ({
            let span = block_span(s, block);
            let (start, end) = cut_of(span);
            let codes = package_codes(imported(installed, block_imports(block)));
            let out = compiled(s, block, installed)->Ok_0.source;
            let to = i + shift_of(start, end, put_at(s), put_in(s, codes).len() as int, i);
            0 <= to < out.len() && out[to] == with_mangled_calls(s, span)[i]
        }),
{
    reveal_strlit("__");
    reveal_strlit("::");
    let n = s.len() as int;
    let span = block_span(s, block);
    let (start, end) = cut_of(span);
    let packages = imported(installed, block_imports(block));
    let codes = package_codes(packages);
    let sites = call_sites(s);
    let out = compiled(s, block, installed)->Ok_0.source;
    let t = with_mangled_calls(s, span);
    lemma_moved(s, block, installed, i);
    if exists|k: int| 0 <= k < sites.len() && (#[trigger] sites[k]).start <= i < sites[k].end {
        let k = choose|k: int| 0 <= k < sites.len() && (#[trigger] sites[k]).start <= i
            < sites[k].end;
        let site = sites[k];
        law_listed_calls_are_calls(s, k);
        assert(!inside(span, site));
        law_calls_are_rewritten(s, block, installed, k);
        lemma_moved(s, block, installed, site.start);
        lemma_site_moves_as_one(s, block, installed, k, i);
        let name = mangled(site.package, site.func);
        let from = site.start + moved_by(sorted_edits(s, block, installed), site.start);
        let m = i - site.start;
        assert(out.subrange(from, from + name.len())[m] == out[from + m]);
        assert(out[from + m] == name[m]);
        let text = site.package + "::"@ + site.func;
        assert(s.subrange(site.start, site.end)[m] == text[m]);
        assert(s[i] == text[m]);
        let p = site.package.len() as int;
        if m == p || m == p + 1 {
            assert(is_call_colon(s, span, i));
            assert(name[m] == '_');
        } else {
            assert(name[m] == text[m]) by {
                if m < p {
                    assert(name[m] == site.package[m] && text[m] == site.package[m]);
                } else {
                    assert(name[m] == site.func[m - p - 2] && text[m] == site.func[m - p - 2]);
                }
            }
            if is_call_colon(s, span, i) {
                let q = choose|q: int|
                    0 <= q < sites.len() && !is_within(span, #[trigger] sites[q]) && (i
                        == sites[q].start + sites[q].package.len() || i == sites[q].start
                        + sites[q].package.len() + 1);
                law_listed_calls_are_calls(s, q);
                law_call_sites_in_order(s, n);
                if q < k {
                    assert(sites[q].end < sites[k].start);
                }
                if k < q {
                    assert(sites[k].end < sites[q].start);
                }
            }
        }
    } else {
        assert forall|k: int| 0 <= k < sites.len() implies !((#[trigger] sites[k]).start <= i
            < sites[k].end) by {
        }
        law_rest_passes_through(s, block, installed, i);
        if is_call_colon(s, span, i) {
            let q = choose|q: int|
                0 <= q < sites.len() && !is_within(span, #[trigger] sites[q]) && (i
                    == sites[q].start + sites[q].package.len() || i == sites[q].start
                    + sites[q].package.len() + 1);
            law_listed_calls_are_calls(s, q);
        }
    }
}

/// A call outside of the library block is moved as one.
proof fn lemma_site_moves_as_one(
    s: Seq<char>,
    block: Option<Library>,
    installed: Seq<Package>,
    k: int,
    i: int,
)
    requires
        compiles(s, block, installed),
        0 <= k < call_sites(s).len(),
        call_sites(s)[k].start <= i < call_sites(s)[k].end,
        block_span(s, block) matches Some((start, end)) ==> !(start <= i < end),
    ensures
        ({
            let (start, end) = cut_of(block_span(s, block));
            let site = call_sites(s)[k];
            &&& end <= i <==> end <= site.start
            &&& put_at(s) <= i <==> put_at(s) <= site.start
        }),
{
    let n = s.len() as int;
    let site = call_sites(s)[k];
    lemma_sites_have_qualifiers(s, n, k);
    let q = choose|q: int| q < n && #[trigger] is_qualifier(s, q) && site == call_site(s, q);
    lemma_call_site_bounds(s, q);
    if block is Some {
        law_library_block_stands_in_source(s);
        lemma_site_apart_from_block(s, q);
    }
    lemma_functions_block(s);
    if let Some(open) = functions_block(s) {
        if site.start <= open < site.end {
            assert(is_ident(s[open]) || s[open] == ':');
        }
    }
}

/// A compiled source is the source itself, with `package__func` for each call `package::func`,
/// without the library block, and with the code of the imported packages at the start of its
/// `functions { }` block or, where it has none, in one at its start; character for character, with
/// nothing else changed.
pub proof fn law_output_is_the_source_with_calls_mangled(
    s: Seq<char>,
    block: Option<Library>,
    installed: Seq<Package>,
)
    requires
        compiles(s, block, installed),
    ensures
        ({
            let span = block_span(s, block);
            let (start, end) = cut_of(span);
            compiled(s, block, installed)->Ok_0.source == cut_and_filled(
                with_mangled_calls(s, span),
                start,
                end,
                put_at(s),
                put_in(s, code_of_each(imported(installed, block_imports(block)))),
            )
        }),
{
    let n = s.len() as int;
    let span = block_span(s, block);
    let (start, end) = cut_of(span);
    let packages = imported(installed, block_imports(block));
    let codes = package_codes(packages);
    assert(codes =~= code_of_each(packages));
    let out = compiled(s, block, installed)->Ok_0.source;
    let t = with_mangled_calls(s, span);
    let at = put_at(s);
    let text = put_in(s, codes);
    let m = text.len() as int;
    let w = cut_and_filled(t, start, end, at, text);
    if block is Some {
        law_library_block_stands_in_source(s);
    }
    lemma_functions_block(s);
    assert(0 <= start <= end <= n && 0 <= at <= n);
    assert(at <= start || end <= at);
    law_output_has_nothing_else(s, block, installed);
    lemma_moved(s, block, installed, n);
    assert(out.len() == w.len());
    let place = if at <= start {
        at
    } else {
        at - (end - start)
    };
    if codes.len() > 0 {
        law_package_code_is_spliced(s, block, installed);
        if let Some(open) = functions_block(s) {
            lemma_moved(s, block, installed, open);
        }
        assert(splice_head(s) + join(codes, "\n"@) + splice_tail(s) =~= text);
        assert(splice_place(s, block, installed) == place);
        assert(out.subrange(place, place + m) == text);
    }
    assert forall|j: int| 0 <= j < out.len() implies out[j] == w[j] by {
        if place <= j < place + m {
            assert(out.subrange(place, place + m)[j - place] == out[j]);
            assert(w[j] == text[j - place]);
        } else {
            let i = if at <= start {
                if j < at {
                    j
                } else if j < m + start {
                    j - m
                } else {
                    j - m + (end - start)
                }
            } else {
                if j < start {
                    j
                } else if j < place {
                    j + (end - start)
                } else {
                    j - m + (end - start)
                }
            };
            lemma_char_comes_out(s, block, installed, i);
            assert(w[j] == t[i]);
        }
    }
    assert(out =~= w);
}

// The code of a package ---------------------------------------------------

/// At position `i` of a package's source one of its exports is defined or called: it stands there as
/// a word that begins as code, with white space and a `(` behind it.
pub open spec fn is_export_at(package: Package, i: int) -> bool {
    exists|func: Seq<char>| #[trigger]
        package.exported.contains(func) && is_word_at(package.source, func, i) && is_code(
            package.source,
            i,
        ) && is_led_to(package.source, i + func.len(), '(')
}

/// The characters of a package's source, each with `package__` in front of it where one of the
/// exports begins.
pub open spec fn with_prefixes(package: Package) -> Seq<Seq<char>> {
    Seq::new(
        package.source.len(),
        |i: int|
            if is_export_at(package, i) {
                package.name + "__"@ + seq![package.source[i]]
            } else {
                seq![package.source[i]]
            },
    )
}

/// The code of a package is its source, with `package__` in front of each of its exports wherever
/// that is defined or called, and nothing else changed.
pub proof fn law_package_code_is_the_source_with_prefixes(package: Package)
    requires
        is_sound_package(package),
    ensures
        package_code(package) == with_prefixes(package).flatten(),
{
    lemma_prefixed_from(package, 0);
    assert(with_prefixes(package).skip(0) =~= with_prefixes(package));
}

/// The code of a package from a position of its source on.
proof fn lemma_prefixed_from(package: Package, i: int)
    requires
        is_sound_package(package),
        0 <= i <= package.source.len(),
    ensures
        ({
            let exports = ranked::<String>(package.exported);
            replaced_from(
                package.source,
                exports,
                mangled_names(package.name, exports),
                i,
            ) == with_prefixes(package).skip(i).flatten()
        }),
    decreases package.source.len() - i,
{
    let s = package.source;
    let exports = ranked::<String>(package.exported);
    let texts = mangled_names(package.name, exports);
    let pieces = with_prefixes(package);
    if i < s.len() {
        lemma_export_at(package, i);
        lemma_callee(s, exports, i);
        let rest = pieces.skip(i);
        assert(rest.drop_first() =~= pieces.skip(i + 1));
        assert(rest.first() == pieces[i]);
        match callee(s, exports, i) {
            None => {
                lemma_prefixed_from(package, i + 1);
            },
            Some(k) => {
                let func = exports[k];
                let end = i + func.len();
                lemma_exports_are_replaceable(package);
                assert(is_word(func));
                lemma_prefixed_from(package, end);
                assert forall|j: int| i < j < end implies #[trigger] pieces[j] == seq![s[j]] by {
                    assert(s.subrange(i, end)[j - 1 - i] == func[j - 1 - i]);
                    assert(is_ident(func[j - 1 - i]));
                    lemma_callee(s, exports, j);
                    lemma_export_at(package, j);
                }
                lemma_plain_run(pieces, s, i + 1, end);
                assert(texts[k] == package.name + "__"@ + func);
                assert(s.subrange(i, end) == func);
                assert(func =~= seq![s[i]] + s.subrange(i + 1, end));
                let tail = pieces.skip(end).flatten();
                assert(texts[k] + tail =~= package.name + "__"@ + seq![s[i]] + (s.subrange(
                    i + 1,
                    end,
                ) + tail));
            },
        }
    } else {
        assert(pieces.skip(i) =~= Seq::empty());
    }
}

/// An export is found where one stands.
proof fn lemma_export_at(package: Package, i: int)
    requires
        is_sound_package(package),
        0 <= i < package.source.len(),
    ensures
        is_export_at(package, i) <==> callee(
            package.source,
            ranked::<String>(package.exported),
            i,
        ) is Some,
{
    let s = package.source;
    let exports = ranked::<String>(package.exported);
    lemma_exports_are_replaceable(package);
    lemma_callee(s, exports, i);
    if let Some(k) = callee(s, exports, i) {
        assert(exports.contains(exports[k]));
        law_call_has_a_parenthesis(s, exports[k], i);
        assert(package.exported.contains(exports[k]));
    }
    if is_export_at(package, i) {
        let func = choose|func: Seq<char>| #[trigger]
            package.exported.contains(func) && is_word_at(s, func, i) && is_code(s, i) && is_led_to(
                s,
                i + func.len(),
                '(',
            );
        law_call_has_a_parenthesis(s, func, i);
        assert(exports.contains(func));
        let k = choose|k: int| 0 <= k < exports.len() && exports[k] == func;
        assert(is_word(exports[k]));
    }
}

/// Pieces that are single characters are these.
proof fn lemma_plain_run(pieces: Seq<Seq<char>>, s: Seq<char>, a: int, b: int)
    requires
        0 <= a <= b <= s.len(),
        pieces.len() == s.len(),
        forall|j: int| a <= j < b ==> #[trigger] pieces[j] == seq![s[j]],
    ensures
        pieces.skip(a).flatten() == s.subrange(a, b) + pieces.skip(b).flatten(),
    decreases b - a,
{
    if a < b {
        lemma_plain_run(pieces, s, a + 1, b);
        let rest = pieces.skip(a);
        assert(rest.drop_first() =~= pieces.skip(a + 1));
        assert(rest.first() == pieces[a]);
        assert(s.subrange(a, b) =~= seq![s[a]] + s.subrange(a + 1, b));
        assert(rest.flatten() =~= s.subrange(a, b) + pieces.skip(b).flatten());
    } else {
        assert(s.subrange(a, b) + pieces.skip(b).flatten() =~= pieces.skip(b).flatten());
    }
}

} // verus!
