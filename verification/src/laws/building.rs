//! Which lines of an output came from which package, and in which order packages are built in.
use vstd::prelude::*;

use crate::cli::{
    built, in_pin_order, is_named, loaded_packages, named_before, next_build_step, source_imports,
    BuildStep, PackageReadText,
};
use crate::codegen::{
    block_edits, block_imports, block_span, compiled, lemma_call_edits_plain, lemma_ranked_splice,
    splice_edits, splice_head, splice_tail, Compiled, Package,
};
use crate::codegen::calls::call_edits;
use crate::codegen::edits::{edited_before_splice, edited_from, Edit, SourceEdit};
use crate::codegen::imports::{has_package, imported};
use crate::codegen::line_ranges::{
    codes_before, lemma_codes_before, lemma_codes_before_prefix, lemma_line_feeds_concat,
    line_feeds,
};
use crate::codegen::mangling::{package_code, package_codes};
use crate::codegen::rename::call_sites;
use crate::laws::compiling::law_plain_source_passes_through;
use crate::order::{lemma_ranked_permutes, ranked};
use crate::parser::library_block::{library_of, Import, Library, LibraryFault};
use crate::resolve::lockfile::{find_pin, pins_package, Pin};
use crate::text::{
    drop_carriage_return, first_from, is_char_at, join, lemma_first_agrees, lemma_first_extends,
    lemma_first_found, lemma_first_skip, lines,
};

verus! {

// Lines -------------------------------------------------------------------

/// The lines of two texts one after the other are those of the first and then those of the
/// second, where the first ends with a line feed.
pub proof fn lemma_lines_concat(a: Seq<char>, b: Seq<char>)
    requires
        a.len() > 0 ==> a.last() == '\n',
    ensures
        lines(a + b) == lines(a) + lines(b),
        lines(a).len() == line_feeds(a),
    decreases a.len(),
{
    let all = a + b;
    if a.len() == 0 {
        assert(all =~= b);
        assert(lines(a) + lines(b) =~= lines(b));
    } else {
        let n = a.len() as int;
        let p = is_char_at(a, '\n');
        let q = is_char_at(all, '\n');
        assert(p(n - 1));
        lemma_first_found(p, 0, n);
        let i = first_from(p, 0, n)->0;
        assert forall|j: int| 0 <= j < n implies #[trigger] p(j) == q(j) by {
        }
        lemma_first_agrees(p, q, 0, n);
        lemma_first_extends(q, 0, n, all.len() as int);
        let rest = a.skip(i + 1);
        assert(all.take(i) =~= a.take(i));
        assert(all.skip(i + 1) =~= rest + b);
        if rest.len() > 0 {
            assert(rest.last() == a.last());
        }
        lemma_lines_concat(rest, b);
        let line = seq![drop_carriage_return(a.take(i))];
        assert(line + (lines(rest) + lines(b)) =~= line + lines(rest) + lines(b));
        assert(a =~= a.take(i + 1) + rest);
        lemma_line_feeds_concat(a.take(i + 1), rest);
        assert(a.take(i + 1).drop_last() =~= a.take(i));
        lemma_no_line_feeds(a.take(i));
        assert forall|j: int| 0 <= j < i implies a.take(i)[j] != '\n' by {
            assert(!p(j));
        }
    }
}

/// A text in which no line feed is found has none.
proof fn lemma_no_line_feeds(s: Seq<char>)
    ensures
        (forall|j: int| 0 <= j < s.len() ==> s[j] != '\n') ==> line_feeds(s) == 0,
    decreases s.len(),
{
    if s.len() > 0 {
        lemma_no_line_feeds(s.drop_last());
        assert(s.last() == s[s.len() - 1]);
    }
}

/// The lines of a text come first among those of the text with a line feed and more behind
/// it.
proof fn lemma_lines_before_more(code: Seq<char>, more: Seq<char>)
    requires
        code.len() > 0 ==> code.last() != '\r',
    ensures
        ({
            let all = code + seq!['\n'] + more;
            &&& lines(code).len() <= lines(all).len()
            &&& lines(all).take(lines(code).len() as int) == lines(code)
        }),
    decreases code.len(),
{
    let all = code + seq!['\n'] + more;
    if code.len() > 0 {
        let n = code.len() as int;
        let p = is_char_at(code, '\n');
        let q = is_char_at(all, '\n');
        lemma_first_found(p, 0, n);
        assert forall|j: int| 0 <= j < n implies #[trigger] p(j) == q(j) by {
        }
        lemma_first_agrees(p, q, 0, n);
        match first_from(p, 0, n) {
            Some(i) => {
                lemma_first_extends(q, 0, n, all.len() as int);
                let rest = code.skip(i + 1);
                assert(all.take(i) =~= code.take(i));
                assert(all.skip(i + 1) =~= rest + seq!['\n'] + more);
                if rest.len() > 0 {
                    assert(rest.last() == code.last());
                }
                lemma_lines_before_more(rest, more);
                let line = seq![drop_carriage_return(code.take(i))];
                let tail = lines(all.skip(i + 1));
                assert((line + tail).take(1 + lines(rest).len() as int) =~= line + tail.take(
                    lines(rest).len() as int,
                ));
            },
            None => {
                assert forall|j: int| 0 <= j < n implies !#[trigger] q(j) by {
                    assert(!p(j));
                }
                lemma_first_skip(q, 0, n, all.len() as int);
                assert(q(n));
                assert(first_from(q, n, all.len() as int) == Some(n));
                assert(all.take(n) =~= code);
                assert(drop_carriage_return(code) == code);
                assert(lines(all).take(1) =~= seq![code]);
            },
        }
    } else {
        assert(lines(all).take(0) =~= lines(code));
    }
}

/// What joined codes are made of: those before one, that one, and either nothing more or a
/// line feed and the rest.
proof fn lemma_join_around(codes: Seq<Seq<char>>, k: int)
    requires
        0 <= k < codes.len(),
    ensures
        exists|more: Seq<char>|
            #![trigger join_is(codes, k, more)]
            join_is(codes, k, more) && (more.len() > 0 ==> more[0] == '\n'),
    decreases codes.len(),
{
    reveal_strlit("\n");
    let sep = "\n"@;
    let n = codes.len() as int;
    if k == n - 1 {
        let more = Seq::<char>::empty();
        if n > 1 {
            lemma_codes_before(codes, k);
            assert(codes.take(k) =~= codes.drop_last());
        } else {
            assert(codes_before(codes, 0) =~= seq![]);
        }
        assert(join(codes, sep) =~= codes_before(codes, k) + codes[k] + more);
        assert(join_is(codes, k, more));
    } else {
        let front = codes.drop_last();
        lemma_join_around(front, k);
        let inner = choose|more: Seq<char>|
            #![trigger join_is(front, k, more)]
            join_is(front, k, more) && (more.len() > 0 ==> more[0] == '\n');
        let more = inner + sep + codes.last();
        lemma_codes_before_prefix(codes, k);
        assert(join(codes, sep) =~= codes_before(codes, k) + codes[k] + more);
        assert(join_is(codes, k, more));
        if inner.len() > 0 {
            assert(more[0] == inner[0]);
        } else {
            assert(more[0] == sep[0]);
        }
    }
}

/// Joined codes are what stands before one of them, that one, and `more`.
spec fn join_is(codes: Seq<Seq<char>>, k: int, more: Seq<char>) -> bool {
    join(codes, "\n"@) == codes_before(codes, k) + codes[k] + more
}

/// What stands before some of the codes ends with a line feed.
proof fn lemma_codes_before_ends(codes: Seq<Seq<char>>, k: int)
    requires
        0 <= k <= codes.len(),
    ensures
        codes_before(codes, k).len() > 0 ==> codes_before(codes, k).last() == '\n',
{
    reveal_strlit("\n");
}

/// Where the packages' code is put in, the output begins with what comes before it, and then
/// the code.
proof fn lemma_splice_stands(s: Seq<char>, edits: Seq<Edit>, cursor: int, text: Seq<char>)
    requires
        edited_before_splice(s, edits, cursor) is Some,
        forall|i: int| 0 <= i < edits.len() && (#[trigger] edits[i]).splice ==> edits[i].text == text,
    ensures
        ({
            let out = edited_from(s, edits, cursor);
            let front = edited_before_splice(s, edits, cursor)->0 + text;
            &&& front.len() <= out.len()
            &&& out.take(front.len() as int) == front
        }),
    decreases edits.len(),
{
    let rest = edits.drop_first();
    let out = edited_from(s, edits, cursor);
    assert forall|i: int| 0 <= i < rest.len() && (#[trigger] rest[i]).splice implies rest[i].text
        == text by {
        assert(rest[i] == edits[i + 1]);
    }
    if edits[0].start < cursor {
        lemma_splice_stands(s, rest, cursor, text);
    } else {
        let kept = s.subrange(cursor, edits[0].start);
        let tail = edited_from(s, rest, edits[0].end);
        if edits[0].splice {
            let front = kept + text;
            assert(out.take(front.len() as int) =~= front);
        } else {
            lemma_splice_stands(s, rest, edits[0].end, text);
            let inner = edited_before_splice(s, rest, edits[0].end)->0 + text;
            let front = edited_before_splice(s, edits, cursor)->0 + text;
            assert(front =~= kept + edits[0].text + inner);
            assert(out.take(front.len() as int) =~= kept + edits[0].text + tail.take(
                inner.len() as int,
            ));
        }
    }
}

/// The lines reported for a package are its own: numbered from 1, the lines of the output from
/// the first to the last one reported are those of the package's code, in order, as long as
/// that does not end with a bare carriage return.
pub proof fn law_reported_lines_are_the_packages_own(
    s: Seq<char>,
    block: Option<Library>,
    installed: Seq<Package>,
    k: int,
)
    requires
        compiled(s, block, installed) is Ok,
        0 <= k < compiled(s, block, installed)->Ok_0.package_lines.len(),
        ({
            let code = package_code(imported(installed, block_imports(block))[k]);
            code.len() > 0 ==> code.last() != '\r'
        }),
    ensures
        ({
            let out = compiled(s, block, installed)->Ok_0;
            let package = imported(installed, block_imports(block))[k];
            let range = out.package_lines[k];
            &&& range.package == package.name
            &&& 1 <= range.first <= range.last + 1 <= lines(out.source).len() + 1
            &&& lines(out.source).subrange(range.first - 1, range.last) == lines(
                package_code(package),
            )
        }),
{
    let packages = imported(installed, block_imports(block));
    let codes = package_codes(packages);
    let calls = call_edits(call_sites(s), block_span(s, block), packages)->Ok_0;
    let edits = block_edits(block_span(s, block)) + calls + splice_edits(s, codes);
    let sorted = ranked::<SourceEdit>(edits);
    let text = splice_head(s) + join(codes, "\n"@) + splice_tail(s);
    assert(edited_before_splice(s, sorted, 0) is Some);
    let before = edited_before_splice(s, sorted, 0)->0;
    assert forall|i: int| 0 <= i < sorted.len() && (#[trigger] sorted[i]).splice implies
        sorted[i].text == text by {
        lemma_call_edits_plain(call_sites(s), block_span(s, block), packages);
        lemma_ranked_splice(edits, text);
        lemma_ranked_permutes::<SourceEdit>(edits);
    }
    lemma_splice_stands(s, sorted, 0, text);
    let out = edited_from(s, sorted, 0);
    let behind = out.skip((before + text).len() as int);
    assert(out =~= before + text + behind);
    lemma_lines_of_code(s, before, codes, behind, k);
}

/// In an output that has `before` in front of the packages' code and `behind` behind it, each
/// package's lines are those of its code.
proof fn lemma_lines_of_code(
    s: Seq<char>,
    before: Seq<char>,
    codes: Seq<Seq<char>>,
    behind: Seq<char>,
    k: int,
)
    requires
        0 <= k < codes.len(),
        codes[k].len() > 0 ==> codes[k].last() != '\r',
    ensures
        ({
            let text = splice_head(s) + join(codes, "\n"@) + splice_tail(s);
            let all = lines(before + text + behind);
            let n = line_feeds(before + splice_head(s) + codes_before(codes, k));
            let m = lines(codes[k]).len();
            &&& 0 <= n && n + m <= all.len()
            &&& all.subrange(n, n + m) == lines(codes[k])
        }),
{
    let code = codes[k];
    lemma_join_around(codes, k);
    let more = choose|more: Seq<char>|
        #![trigger join_is(codes, k, more)]
        join_is(codes, k, more) && (more.len() > 0 ==> more[0] == '\n');
    let head = before + splice_head(s) + codes_before(codes, k);
    let tail = more + splice_tail(s) + behind;
    lemma_splice_text(s);
    lemma_codes_before_ends(codes, k);
    let text = splice_head(s) + join(codes, "\n"@) + splice_tail(s);
    assert(before + text + behind =~= head + (code + tail));
    assert(tail[0] == '\n') by {
        if more.len() > 0 {
            assert(tail[0] == more[0]);
        } else {
            assert(tail[0] == splice_tail(s)[0]);
        }
    }
    assert(head.last() == '\n') by {
        if codes_before(codes, k).len() > 0 {
            assert(head.last() == codes_before(codes, k).last());
        } else {
            assert(head.last() == splice_head(s).last());
        }
    }
    lemma_lines_of_part(head, code, tail);
}

/// The lines of a part of a text that begins behind a line feed and ends before one.
proof fn lemma_lines_of_part(head: Seq<char>, code: Seq<char>, tail: Seq<char>)
    requires
        head.len() > 0,
        head.last() == '\n',
        tail.len() > 0,
        tail[0] == '\n',
        code.len() > 0 ==> code.last() != '\r',
    ensures
        ({
            let all = lines(head + (code + tail));
            let n = line_feeds(head);
            let m = lines(code).len();
            &&& 0 <= n && n + m <= all.len()
            &&& all.subrange(n, n + m) == lines(code)
        }),
{
    lemma_lines_concat(head, code + tail);
    assert(code + tail =~= code + seq!['\n'] + tail.skip(1));
    lemma_lines_before_more(code, tail.skip(1));
    let n = lines(head).len() as int;
    let m = lines(code).len() as int;
    assert((lines(head) + lines(code + tail)).subrange(n, n + m) =~= lines(code + tail).take(m));
}

/// What stands around the packages' code ends and begins its lines.
proof fn lemma_splice_text(s: Seq<char>)
    ensures
        splice_head(s).len() > 0,
        splice_head(s).last() == '\n',
        splice_tail(s).len() > 0,
        splice_tail(s)[0] == '\n',
{
    reveal_strlit("\n");
    reveal_strlit("functions {\n");
    reveal_strlit("\n}\n");
}

// The order of packages ---------------------------------------------------

/// For every name, the two lists have the same package or both have none.
pub open spec fn same_packages(a: Seq<Package>, b: Seq<Package>) -> bool {
    forall|name: Seq<char>| #[trigger] package_of(a, name) == package_of(b, name)
}

/// The first of `packages` with the name `name`.
pub open spec fn package_of(packages: Seq<Package>, name: Seq<char>) -> Option<Package> {
    match first_from(is_named(packages, name), 0, packages.len() as int) {
        Some(i) => Some(packages[i]),
        None => None,
    }
}

/// The order in which packages are imported and loaded does not matter: they are built in the
/// order of the lock.
pub proof fn law_import_order_does_not_matter(pins: Seq<Pin>, a: Seq<Package>, b: Seq<Package>)
    requires
        same_packages(a, b),
    ensures
        in_pin_order(pins, a, pins.len() as int) == in_pin_order(pins, b, pins.len() as int),
{
    lemma_pin_order_agrees(pins, a, b, pins.len() as int);
}

/// The order of the pins is the same for lists with the same packages.
proof fn lemma_pin_order_agrees(pins: Seq<Pin>, a: Seq<Package>, b: Seq<Package>, k: int)
    requires
        same_packages(a, b),
    ensures
        in_pin_order(pins, a, k) == in_pin_order(pins, b, k),
    decreases k,
{
    if k > 0 {
        lemma_pin_order_agrees(pins, a, b, k - 1);
        assert(package_of(a, pins[k - 1].name) == package_of(b, pins[k - 1].name));
    }
}

/// Every loaded package that the lock pins is built in, so that what is located is compiled.
pub proof fn law_located_packages_are_built_in(
    pins: Seq<Pin>,
    packages: Seq<Package>,
    name: Seq<char>,
)
    requires
        find_pin(pins, name) is Some,
        package_of(packages, name) is Some,
    ensures
        in_pin_order(pins, packages, pins.len() as int).contains(package_of(packages, name)->0),
        has_package(in_pin_order(pins, packages, pins.len() as int), name),
{
    let n = pins.len() as int;
    let p = pins_package(pins, name);
    lemma_first_found(p, 0, n);
    let j = first_from(p, 0, n)->0;
    assert(p(j));
    lemma_built_in(pins, packages, name, j, n);
    let all = in_pin_order(pins, packages, n);
    let package = package_of(packages, name)->0;
    lemma_first_found(is_named(packages, name), 0, packages.len() as int);
    let i = first_from(is_named(packages, name), 0, packages.len() as int)->0;
    assert(is_named(packages, name)(i));
    let k = choose|k: int| 0 <= k < all.len() && all[k] == package;
    assert(all[k].name == name);
}

/// A package that one of the first pins names is among those built in.
proof fn lemma_built_in(
    pins: Seq<Pin>,
    packages: Seq<Package>,
    name: Seq<char>,
    j: int,
    k: int,
)
    requires
        0 <= j < k <= pins.len(),
        pins[j].name == name,
        forall|m: int| 0 <= m < j ==> !#[trigger] pins_package(pins, name)(m),
        package_of(packages, name) is Some,
    ensures
        in_pin_order(pins, packages, k).contains(package_of(packages, name)->0),
    decreases k,
{
    let package = package_of(packages, name)->0;
    let all = in_pin_order(pins, packages, k);
    if j == k - 1 {
        assert(!named_before(pins, j, name)) by {
            if named_before(pins, j, name) {
                let m = choose|m: int| 0 <= m < j && (#[trigger] pins[m]).name == name;
                assert(pins_package(pins, name)(m));
            }
        }
        assert(all.last() == package);
    } else {
        lemma_built_in(pins, packages, name, j, k - 1);
        let before = in_pin_order(pins, packages, k - 1);
        let m = choose|m: int| 0 <= m < before.len() && before[m] == package;
        assert(all[m] == package);
    }
}

// The build ---------------------------------------------------------------

/// A build succeeds only if every import is locked and installed.
pub proof fn law_built_imports_are_locked_and_installed(
    source: Seq<char>,
    pins: Seq<Pin>,
    reads: Seq<PackageReadText>,
    k: int,
)
    requires
        built(source, pins, reads) is Ok,
        0 <= k < source_imports(source).len() == reads.len(),
    ensures
        find_pin(pins, source_imports(source)[k].name) is Some,
        reads[k] is Read,
{
    lemma_loaded(pins, source_imports(source), reads, k);
}

/// A loaded package is that of its import, as it was read.
proof fn lemma_loaded(
    pins: Seq<Pin>,
    imports: Seq<Import>,
    reads: Seq<PackageReadText>,
    k: int,
)
    requires
        loaded_packages(pins, imports, reads) is Ok,
        0 <= k < imports.len() == reads.len(),
    ensures
        loaded_packages(pins, imports, reads)->Ok_0.len() == imports.len(),
        loaded_packages(pins, imports, reads)->Ok_0[k].name == imports[k].name,
        find_pin(pins, imports[k].name) is Some,
        reads[k] is Read,
    decreases imports.len(),
{
    let front = imports.drop_last();
    let before = reads.drop_last();
    let packages = loaded_packages(pins, imports, reads)->Ok_0;
    if front.len() > 0 {
        lemma_loaded(pins, front, before, if k < front.len() { k } else { 0 });
    }
    if k < front.len() {
        assert(front[k] == imports[k] && before[k] == reads[k]);
        assert(packages[k] == loaded_packages(pins, front, before)->Ok_0[k]);
    } else {
        let name = imports[k].name;
        lemma_first_found(pins_package(pins, name), 0, pins.len() as int);
        let j = first_from(pins_package(pins, name), 0, pins.len() as int)->0;
        assert(pins_package(pins, name)(j));
    }
}

/// A build never misses a package that it has loaded: where all imports are locked and
/// installed, each of them is among the packages that are compiled in.
pub proof fn law_build_finds_its_imports(
    pins: Seq<Pin>,
    imports: Seq<Import>,
    reads: Seq<PackageReadText>,
    k: int,
)
    requires
        loaded_packages(pins, imports, reads) is Ok,
        0 <= k < imports.len() == reads.len(),
    ensures
        has_package(
            in_pin_order(
                pins,
                loaded_packages(pins, imports, reads)->Ok_0,
                pins.len() as int,
            ),
            imports[k].name,
        ),
{
    lemma_loaded(pins, imports, reads, k);
    let packages = loaded_packages(pins, imports, reads)->Ok_0;
    let name = imports[k].name;
    lemma_first_found(is_named(packages, name), 0, packages.len() as int);
    assert(is_named(packages, name)(k));
    law_located_packages_are_built_in(pins, packages, name);
}

/// A source without a library block and without calls is built into itself, whatever is locked.
pub proof fn law_plain_source_is_built_into_itself(source: Seq<char>, pins: Seq<Pin>)
    requires
        library_of(source) == Ok::<Option<Library>, LibraryFault>(None),
        call_sites(source).len() == 0,
    ensures
        built(source, pins, seq![]) == Ok::<Compiled, Seq<char>>(
            Compiled { source, package_lines: seq![] },
        ),
{
    lemma_nothing_in_pin_order(pins, pins.len() as int);
    law_plain_source_passes_through(source, seq![]);
}

/// Where nothing is loaded, nothing is built in.
proof fn lemma_nothing_in_pin_order(pins: Seq<Pin>, k: int)
    ensures
        in_pin_order(pins, seq![], k) == Seq::<Package>::empty(),
    decreases k,
{
    if k > 0 {
        lemma_nothing_in_pin_order(pins, k - 1);
    }
}

// The steps of a build ----------------------------------------------------

/// The step that a build comes to after `n` steps with these outcomes, or none where one of them
/// failed.
pub open spec fn build_after(check: bool, validate: bool, outcomes: Seq<bool>, n: int) -> Option<
    BuildStep,
>
    decreases n,
{
    if n <= 0 {
        Some(BuildStep::Compile)
    } else {
        match build_after(check, validate, outcomes, n - 1) {
            Some(step) => next_build_step(check, validate, step, outcomes[n - 1]),
            None => None,
        }
    }
}

/// A step that fails is the failure of the build, whichever it is.
pub proof fn law_failed_step_fails_the_build(check: bool, validate: bool, step: BuildStep)
    ensures
        next_build_step(check, validate, step, false) is None,
        next_build_step(check, validate, step, true) is Some,
{
}

/// `--check` never writes, and never runs `stanc`, with `--validate` or without.
pub proof fn law_check_only_compares(validate: bool, outcomes: Seq<bool>, n: int)
    ensures
        build_after(true, validate, outcomes, n) != Some(BuildStep::Write),
        build_after(true, validate, outcomes, n) != Some(BuildStep::RunStanc),
    decreases n,
{
    if n > 0 {
        law_check_only_compares(validate, outcomes, n - 1);
    }
}

/// `stanc` runs only where it is asked for, and only once the output has been written.
pub proof fn law_stanc_runs_on_what_was_written(
    check: bool,
    validate: bool,
    outcomes: Seq<bool>,
    n: int,
)
    requires
        build_after(check, validate, outcomes, n) == Some(BuildStep::RunStanc),
    ensures
        validate,
        !check,
        n > 0,
        build_after(check, validate, outcomes, n - 1) == Some(BuildStep::Write),
        outcomes[n - 1],
{
    if check {
        law_check_only_compares(validate, outcomes, n);
    }
}

/// A build is done only once it has compared, written, or written and type-checked its output, as
/// it was asked to; and it is done then.
pub proof fn law_build_is_done_as_asked(check: bool, validate: bool, outcomes: Seq<bool>)
    requires
        outcomes.len() >= 3,
        outcomes[0] && outcomes[1] && outcomes[2],
    ensures
        build_after(check, validate, outcomes, 1) == Some(
            if check {
                BuildStep::Compare
            } else {
                BuildStep::Write
            },
        ),
        build_after(check, validate, outcomes, 2) == Some(
            if !check && validate {
                BuildStep::RunStanc
            } else {
                BuildStep::Done
            },
        ),
        build_after(check, validate, outcomes, 3) == Some(BuildStep::Done),
{
    reveal_with_fuel(build_after, 4);
}

} // verus!
