//! How the parts of a source are found: its library block and the imports in that, its
//! `functions { }` block, and its calls.
use vstd::prelude::*;
use vstd::utf8::encode_utf8;

use crate::codegen::functions_block::{functions_block, functions_brace, functions_header};
use crate::codegen::rename::{
    call_site, call_sites, ident_end, ident_start, is_call_site, is_qualifier, CallSite,
};
use crate::laws::joining::is_blank;
use crate::laws::parsing::{
    law_call_site_is_code, law_call_site_reads_as_call, law_every_call_site_is_listed,
    lemma_call_site_bounds, lemma_sites_have_qualifiers,
};
use crate::laws::texts::{
    is_around, is_trim, lacks, law_split_at_the_first, law_trimming_takes_blanks_away,
    law_trimming_undoes_padding,
};
use crate::parser::brace_match::{closing_brace, code_mask, is_code, is_ident};
use crate::parser::library_block::{
    before_comment, every_position, imports_of, is_import_version, is_package_char, is_package_name,
    is_version_char, library_brace, library_header, library_of, one_import, statements, Import,
    Library, LibraryFault,
};
use crate::text::{
    find_text, first_from, is_space, lemma_first_found, lemma_skip_space_bounds, lines, occurrence,
    skip_space, split, split_first, trim,
};

verus! {

// Words and what follows them ---------------------------------------------

/// From `i` to before `e` there is only white space, and at `e` stands `c`.
pub open spec fn leads_to(s: Seq<char>, i: int, e: int, c: char) -> bool {
    &&& i <= e < s.len()
    &&& s[e] == c
    &&& forall|j: int| i <= j < e ==> is_space(#[trigger] s[j])
}

/// From `i` on there is only white space up to a `c`.
pub open spec fn is_led_to(s: Seq<char>, i: int, c: char) -> bool {
    exists|e: int| leads_to(s, i, e, c)
}

/// The word stands at position `i`, with no identifier character on either side.
pub open spec fn is_word_at(s: Seq<char>, word: Seq<char>, i: int) -> bool {
    &&& 0 <= i
    &&& i + word.len() <= s.len()
    &&& s.subrange(i, i + word.len()) == word
    &&& i > 0 ==> !is_ident(s[i - 1])
    &&& i + word.len() < s.len() ==> !is_ident(s[i + word.len()])
}

/// White space is skipped up to something else.
proof fn lemma_leads_to(s: Seq<char>, i: int, c: char)
    requires
        0 <= i <= s.len(),
        !is_space(c),
    ensures
        (skip_space(s, i) < s.len() && s[skip_space(s, i)] == c) <==> exists|e: int|
            leads_to(s, i, e, c),
        forall|e: int| #[trigger] leads_to(s, i, e, c) ==> e == skip_space(s, i),
{
    lemma_skip_space_bounds(s, i);
    let k = skip_space(s, i);
    if k < s.len() && s[k] == c {
        assert(leads_to(s, i, k, c));
    }
    assert forall|e: int| #[trigger] leads_to(s, i, e, c) implies e == k by {
        if e < k {
            assert(is_space(s[e]));
        }
        if k < e {
            assert(is_space(s[k]));
        }
    }
}

// The library block -------------------------------------------------------

/// At position `i` the word `library` stands, with white space and a `{` at `e` behind it.
pub open spec fn begins_library(s: Seq<char>, i: int, e: int) -> bool {
    is_word_at(s, "library"@, i) && leads_to(s, i + 7, e, '{')
}

/// A header is one.
proof fn lemma_library_header(s: Seq<char>, i: int)
    requires
        0 <= i < s.len(),
    ensures
        library_header(s)(i) <==> exists|e: int| begins_library(s, i, e),
        forall|e: int| #[trigger] begins_library(s, i, e) ==> e == library_brace(s, i),
{
    reveal_strlit("library");
    if i + 7 <= s.len() {
        lemma_leads_to(s, i + 7, '{');
        assert forall|e: int| #[trigger] begins_library(s, i, e) implies e == library_brace(
            s,
            i,
        ) by {
            assert(leads_to(s, i + 7, e, '{'));
        }
        if library_header(s)(i) {
            let behind = i + 7;
            let e = choose|e: int| leads_to(s, behind, e, '{');
            assert(begins_library(s, i, e));
        }
    }
}

/// A library block begins nowhere before position `n`.
pub open spec fn no_library_before(s: Seq<char>, n: int) -> bool {
    forall|i: int, e: int| 0 <= i < n ==> !#[trigger] begins_library(s, i, e)
}

/// No header before a position is that no block begins there.
proof fn lemma_no_library(s: Seq<char>, n: int)
    requires
        0 <= n <= s.len(),
    ensures
        no_library_before(s, n) <==> forall|i: int| 0 <= i < n ==> !#[trigger] library_header(s)(i),
{
    let p = library_header(s);
    if no_library_before(s, n) {
        assert forall|i: int| 0 <= i < n implies !#[trigger] p(i) by {
            lemma_library_header(s, i);
        }
    }
    if forall|i: int| 0 <= i < n ==> !#[trigger] p(i) {
        assert forall|i: int, e: int| 0 <= i < n implies !#[trigger] begins_library(s, i, e) by {
            lemma_library_header(s, i);
            assert(!p(i));
        }
    }
}

/// A source has no library block exactly if nowhere in it the word `library` has a `{` behind it.
pub proof fn law_source_may_have_no_library_block(s: Seq<char>)
    ensures
        library_of(s) == Ok::<Option<Library>, LibraryFault>(None) <==> no_library_before(
            s,
            s.len() as int,
        ),
{
    lemma_first_found(library_header(s), 0, s.len() as int);
    lemma_no_library(s, s.len() as int);
}

/// The library block of a source is what the first word `library` with a `{` behind it begins.
/// Where that is not closed, this is the fault. Otherwise the block ends with the brace that closes
/// it, and its imports, or their fault, are those of what stands in between.
pub proof fn law_library_block_is_the_first(s: Seq<char>, i: int, e: int)
    requires
        begins_library(s, i, e),
        no_library_before(s, i),
    ensures
        match closing_brace(every_position(s), s, e) {
            None => library_of(s) == Err::<Option<Library>, LibraryFault>(
                LibraryFault::UnclosedBlock { start: encode_utf8(s.take(i)).len() as int },
            ),
            Some(close) => match imports_of(statements(lines(s.subrange(e + 1, close)))) {
                Err(fault) => library_of(s) == Err::<Option<Library>, LibraryFault>(fault),
                Ok(imports) => library_of(s) == Ok::<Option<Library>, LibraryFault>(
                    Some(
                        Library {
                            imports,
                            start: encode_utf8(s.take(i)).len() as int,
                            end: encode_utf8(s.take(close + 1)).len() as int,
                        },
                    ),
                ),
            },
        },
{
    reveal_strlit("library");
    let p = library_header(s);
    let n = s.len() as int;
    lemma_first_found(p, 0, n);
    lemma_library_header(s, i);
    lemma_no_library(s, i);
    assert(p(i));
    let k = first_from(p, 0, n)->0;
    if k < i {
        assert(p(k));
    }
    assert(k == i);
    assert(library_brace(s, i) == e);
}

/// The statements of two lists of lines are those of the one and then those of the other, and those
/// of one line are what semicolons separate in it.
pub proof fn law_statements_go_over_lines(
    a: Seq<Seq<char>>,
    b: Seq<Seq<char>>,
    line: Seq<char>,
)
    ensures
        statements(a + b) == statements(a) + statements(b),
        statements(seq![line]) == split(before_comment(line), ';'),
        statements(Seq::<Seq<char>>::empty()).len() == 0,
    decreases b.len(),
{
    assert(statements(seq![line].drop_last()) =~= Seq::empty());
    assert(statements(seq![line]) =~= split(before_comment(line), ';'));
    if b.len() == 0 {
        assert(a + b =~= a);
        assert(statements(a) + statements(b) =~= statements(a));
    } else {
        assert((a + b).drop_last() =~= a + b.drop_last());
        law_statements_go_over_lines(a, b.drop_last(), line);
        assert(statements(a + b) =~= statements(a) + statements(b));
    }
}

/// A line is read up to the first `//`, or as a whole where it has none.
pub proof fn law_line_is_read_up_to_its_comment(line: Seq<char>)
    ensures
        ({
            let kept = before_comment(line);
            &&& kept.len() <= line.len()
            &&& kept == line.take(kept.len() as int)
            &&& kept.len() < line.len() ==> kept.len() + 1 < line.len() && line[kept.len() as int]
                == '/' && line[kept.len() as int + 1] == '/'
            &&& forall|j: int|
                0 <= j < kept.len() && j + 1 < line.len() ==> !(#[trigger] line[j] == '/' && line[j
                    + 1] == '/')
        }),
{
    reveal_strlit("//");
    let p = occurrence(line, "//"@);
    lemma_first_found(p, 0, line.len() as int);
    if let Some(i) = find_text(line, "//"@, 0) {
        assert(p(i));
        assert(line.subrange(i, i + 2)[0] == line[i]);
        assert(line.subrange(i, i + 2)[1] == line[i + 1]);
    } else {
        assert(line.take(line.len() as int) =~= line);
    }
    let kept = before_comment(line);
    assert forall|j: int| 0 <= j < kept.len() && j + 1 < line.len() implies !(#[trigger] line[j]
        == '/' && line[j + 1] == '/') by {
        if line[j] == '/' && line[j + 1] == '/' {
            assert(line.subrange(j, j + 2) =~= "//"@);
            assert(p(j));
        }
    }
}

/// Imports are read one after the other: those of two lists of statements are those of the one and
/// then those of the other, and the fault of the one comes before that of the other. A blank
/// statement makes none.
pub proof fn law_imports_go_over_statements(
    a: Seq<Seq<char>>,
    b: Seq<Seq<char>>,
    statement: Seq<char>,
)
    ensures
        imports_of(a + b) == (match (imports_of(a), imports_of(b)) {
            (Err(fault), _) => Err::<Seq<Import>, LibraryFault>(fault),
            (Ok(_), Err(fault)) => Err(fault),
            (Ok(x), Ok(y)) => Ok(x + y),
        }),
        imports_of(seq![statement]) == (if is_blank(statement) {
            Ok::<Seq<Import>, LibraryFault>(Seq::empty())
        } else {
            match one_import(trim(statement)) {
                Ok(import) => Ok(seq![import]),
                Err(fault) => Err(fault),
            }
        }),
        imports_of(Seq::<Seq<char>>::empty()) == Ok::<Seq<Import>, LibraryFault>(Seq::empty()),
    decreases b.len(),
{
    let one = seq![statement];
    assert(imports_of(one.drop_last()) == Ok::<Seq<Import>, LibraryFault>(seq![]));
    lemma_blank_is_trimmed_away(statement);
    if let Ok(import) = one_import(trim(statement)) {
        assert(Seq::<Import>::empty().push(import) =~= seq![import]);
    }
    if b.len() == 0 {
        assert(a + b =~= a);
        if let Ok(x) = imports_of(a) {
            assert(x + Seq::<Import>::empty() =~= x);
        }
    } else {
        assert((a + b).drop_last() =~= a + b.drop_last());
        assert((a + b).last() == b.last());
        law_imports_go_over_statements(a, b.drop_last(), statement);
        if let (Ok(x), Ok(y)) = (imports_of(a), imports_of(b.drop_last())) {
            if let Ok(import) = one_import(trim(b.last())) {
                assert((x + y).push(import) =~= x + y.push(import));
            }
        }
    }
}

/// Of a blank text nothing is left, and of any other something.
pub proof fn lemma_blank_is_trimmed_away(s: Seq<char>)
    ensures
        trim(s).len() == 0 <==> is_blank(s),
{
    law_trimming_takes_blanks_away(s);
    let none = Seq::<char>::empty();
    if is_blank(s) {
        law_trimming_undoes_padding(s, none, none);
        assert(s + none + none =~= s);
    }
    if trim(s).len() == 0 {
        let (a, b) = choose|a: Seq<char>, b: Seq<char>| #[trigger]
            is_around(a, trim(s), b, s) && is_blank(a) && is_blank(b);
        assert(s =~= a + b);
        assert forall|i: int| 0 <= i < s.len() implies is_space(#[trigger] s[i]) by {
            if i < a.len() {
                assert(s[i] == a[i]);
            } else {
                assert(s[i] == b[i - a.len()]);
            }
        }
    }
}

/// `c` is an ASCII letter or digit.
pub open spec fn is_alphanumeric(c: char) -> bool {
    'a' <= c <= 'z' || 'A' <= c <= 'Z' || '0' <= c <= '9'
}

/// The name is one that a package can have.
pub open spec fn can_be_named(name: Seq<char>) -> bool {
    &&& name.len() > 0
    &&& forall|i: int|
        0 <= i < name.len() ==> is_alphanumeric(#[trigger] name[i]) || name[i] == '_' || name[i]
            == '-'
}

/// The version is one that an import can ask for.
pub open spec fn can_be_asked_for(version: Seq<char>) -> bool {
    &&& version.len() > 0
    &&& forall|i: int|
        0 <= i < version.len() ==> is_alphanumeric(#[trigger] version[i]) || version[i] == '_'
            || version[i] == '-' || version[i] == '.'
}

/// An import statement reads as it is written: `import`, white space, a name and, with white space
/// around the `@` or none, a version.
pub proof fn law_import_statement_is_read(
    space: Seq<char>,
    name: Seq<char>,
    before: Seq<char>,
    behind: Seq<char>,
    version: Seq<char>,
)
    requires
        is_blank(space),
        space.len() > 0,
        is_blank(before),
        is_blank(behind),
        can_be_named(name),
        can_be_asked_for(version),
    ensures
        one_import("import"@ + space + name) == Ok::<Import, LibraryFault>(
            Import { name, version: None },
        ),
        one_import("import"@ + space + name + before + "@"@ + behind + version) == Ok::<
            Import,
            LibraryFault,
        >(Import { name, version: Some(version) }),
{
    reveal_strlit("import");
    reveal_strlit("@");
    let none = Seq::<char>::empty();
    let s = "import"@ + space + name;
    let t = "import"@ + space + name + before + "@"@ + behind + version;
    let asked = name + before + "@"@ + behind + version;
    lemma_named_is_plain(name);
    lemma_asked_is_plain(version);
    assert(s.subrange(0, 6) =~= "import"@);
    assert(t.subrange(0, 6) =~= "import"@);
    assert(s.skip(6) =~= space + name + none);
    assert(t.skip(6) =~= space + asked + none);
    assert(s.skip(6)[0] == space[0] && t.skip(6)[0] == space[0]);
    law_trimming_undoes_padding(space, name, none);
    assert(asked[0] == name[0] && asked.last() == version.last());
    law_trimming_undoes_padding(space, asked, none);
    law_split_at_the_first(name, '@');
    if let Some((a, b)) = split_first(name, '@') {
        assert(name[a.len() as int] == '@');
    }
    law_split_at_the_first(asked, '@');
    let padded = name + before;
    assert(asked =~= padded + seq!['@'] + (behind + version));
    assert(asked[padded.len() as int] == '@');
    let (a, b) = split_first(asked, '@')->0;
    assert(asked[a.len() as int] == '@');
    assert(a.len() == padded.len()) by {
        if a.len() < padded.len() {
            let k = a.len() as int;
            if k < name.len() {
                assert(asked[k] == name[k]);
            } else {
                assert(asked[k] == before[k - name.len()]);
                assert(is_space(asked[k]));
            }
        }
        if a.len() > padded.len() {
            assert(a[padded.len() as int] == asked[padded.len() as int]);
        }
    }
    assert(a =~= none + name + before) by {
        assert(a =~= asked.take(a.len() as int));
    }
    assert(b =~= behind + version + none) by {
        assert(b =~= asked.skip(a.len() as int + 1));
    }
    law_trimming_undoes_padding(none, name, before);
    law_trimming_undoes_padding(behind, version, none);
}

/// A name has neither white space nor `@` in it, and is what the parser takes for one.
proof fn lemma_named_is_plain(name: Seq<char>)
    ensures
        can_be_named(name) <==> is_package_name(name),
        can_be_named(name) ==> is_trim(name) && lacks(name, '@'),
{
    if can_be_named(name) {
        assert forall|i: int| 0 <= i < name.len() implies is_package_char(#[trigger] name[i])
            && !is_space(name[i]) && name[i] != '@' by {
            assert(is_alphanumeric(name[i]) || name[i] == '_' || name[i] == '-');
        }
    }
    if is_package_name(name) {
        assert forall|i: int| 0 <= i < name.len() implies is_alphanumeric(#[trigger] name[i])
            || name[i] == '_' || name[i] == '-' by {
            assert(is_package_char(name[i]));
        }
    }
}

/// A version has no white space in it, and is what the parser takes for one.
proof fn lemma_asked_is_plain(version: Seq<char>)
    ensures
        can_be_asked_for(version) <==> is_import_version(version),
        can_be_asked_for(version) ==> is_trim(version),
{
    if can_be_asked_for(version) {
        assert forall|i: int| 0 <= i < version.len() implies is_version_char(#[trigger] version[i])
            && !is_space(version[i]) by {
            assert(is_alphanumeric(version[i]) || version[i] == '_' || version[i] == '-'
                || version[i] == '.');
        }
    }
    if is_import_version(version) {
        assert forall|i: int| 0 <= i < version.len() implies is_alphanumeric(#[trigger] version[i])
            || version[i] == '_' || version[i] == '-' || version[i] == '.' by {
            assert(is_version_char(version[i]));
        }
    }
}

/// What is read as an import has a name and, if any, a version of the right form, and was written as
/// `import` and white space in front of them; everything else is refused, with the statement in the
/// fault.
pub proof fn law_only_imports_are_read(statement: Seq<char>)
    ensures
        match one_import(statement) {
            Ok(import) => can_be_named(import.name) && (import.version matches Some(v)
                ==> can_be_asked_for(v)) && statement.len() > 6 && statement.take(6) == "import"@
                && is_space(statement[6]) && (import.version is Some <==> statement.contains('@')),
            Err(LibraryFault::MalformedImport { statement: s }) => s == statement,
            Err(LibraryFault::EmptyPackageName { statement: s }) => s == statement,
            Err(_) => false,
        },
{
    reveal_strlit("import");
    if let Ok(import) = one_import(statement) {
        let rest = statement.skip(6);
        let text = trim(rest);
        lemma_named_is_plain(import.name);
        assert(statement.subrange(0, 6) =~= statement.take(6));
        law_split_at_the_first(text, '@');
        law_trimming_takes_blanks_away(rest);
        let (a, b) = choose|a: Seq<char>, b: Seq<char>| #[trigger]
            is_around(a, text, b, rest) && is_blank(a) && is_blank(b);
        if let Some(v) = import.version {
            lemma_asked_is_plain(v);
            let (x, y) = split_first(text, '@')->0;
            assert(text[x.len() as int] == '@');
            assert(rest[a.len() as int + x.len()] == '@');
            assert(statement[6 + a.len() as int + x.len()] == '@');
        } else {
            assert(lacks(text, '@'));
            assert(rest =~= a + text + b);
            assert forall|i: int| 0 <= i < statement.len() implies #[trigger] statement[i] != '@' by {
                if i < 6 {
                    assert(statement[i] == "import"@[i]);
                } else if i - 6 < a.len() {
                    assert(statement[i] == rest[i - 6]);
                    assert(rest[i - 6] == a[i - 6]);
                } else if i - 6 < a.len() + text.len() {
                    assert(statement[i] == rest[i - 6]);
                    assert(rest[i - 6] == text[i - 6 - a.len()]);
                } else {
                    assert(statement[i] == rest[i - 6]);
                    assert(rest[i - 6] == b[i - 6 - a.len() - text.len()]);
                }
            }
        }
        if rest.len() == 0 {
            assert(text.len() == 0);
        }
        assert(rest[0] == statement[6]);
    }
}

/// A statement that says `import` and no name, before a version or alone, is refused for that.
pub proof fn law_import_needs_a_name(space: Seq<char>, rest: Seq<char>)
    requires
        is_blank(space),
        space.len() > 0,
    ensures
        one_import("import"@ + space) == Err::<Import, LibraryFault>(
            LibraryFault::EmptyPackageName { statement: "import"@ + space },
        ),
        one_import("import"@) == Err::<Import, LibraryFault>(
            LibraryFault::EmptyPackageName { statement: "import"@ },
        ),
        one_import("import"@ + space + "@"@ + rest) == Err::<Import, LibraryFault>(
            LibraryFault::EmptyPackageName { statement: "import"@ + space + "@"@ + rest },
        ),
{
    reveal_strlit("import");
    reveal_strlit("@");
    let none = Seq::<char>::empty();
    let s = "import"@ + space;
    assert(s.subrange(0, 6) =~= "import"@);
    assert(s.skip(6) =~= space);
    assert(s.skip(6)[0] == space[0]);
    lemma_blank_is_trimmed_away(space);
    assert("import"@.subrange(0, 6) =~= "import"@);
    assert("import"@.skip(6) =~= none);
    lemma_blank_is_trimmed_away(none);
    let t = "import"@ + space + "@"@ + rest;
    assert(t.subrange(0, 6) =~= "import"@);
    let tail = t.skip(6);
    assert(tail =~= space + ("@"@ + rest));
    assert(tail[0] == space[0]);
    let text = trim(tail);
    law_trimming_takes_blanks_away(tail);
    let (a, b) = choose|a: Seq<char>, b: Seq<char>| #[trigger]
        is_around(a, text, b, tail) && is_blank(a) && is_blank(b);
    let n = space.len() as int;
    assert(tail[n] == '@');
    if a.len() > n {
        assert(a[n] == tail[n]);
        assert(is_space(a[n]));
    }
    if a.len() + text.len() <= n {
        assert(tail[n] == b[n - a.len() - text.len()]);
        assert(is_space(tail[n]));
    }
    if a.len() < n {
        assert(text[0] == tail[a.len() as int]);
        assert(tail[a.len() as int] == space[a.len() as int]);
    }
    assert(a.len() == n);
    assert(text[0] == '@');
    law_split_at_the_first(text, '@');
    let (x, y) = split_first(text, '@')->0;
    if x.len() > 0 {
        assert(x[0] == text[0]);
    }
    assert(x =~= none);
    assert(trim(none).len() == 0);
}

// The functions block -----------------------------------------------------

/// At position `i` the word `functions` stands as code, with white space and a `{`, which is code and
/// is closed, at `e` behind it.
pub open spec fn begins_functions(s: Seq<char>, i: int, e: int) -> bool {
    &&& is_word_at(s, "functions"@, i)
    &&& is_code(s, i)
    &&& leads_to(s, i + 9, e, '{')
    &&& is_code(s, e)
    &&& closing_brace(code_mask(s), s, e) is Some
}

/// A `functions { }` block begins nowhere before position `n`.
pub open spec fn no_functions_before(s: Seq<char>, n: int) -> bool {
    forall|i: int, e: int| 0 <= i < n ==> !#[trigger] begins_functions(s, i, e)
}

/// No header before a position is that no block begins there.
proof fn lemma_no_functions(s: Seq<char>, n: int)
    requires
        0 <= n <= s.len(),
    ensures
        no_functions_before(s, n) <==> forall|i: int|
            0 <= i < n ==> !#[trigger] functions_header(s)(i),
{
    let p = functions_header(s);
    if no_functions_before(s, n) {
        assert forall|i: int| 0 <= i < n implies !#[trigger] p(i) by {
            lemma_functions_header(s, i);
        }
    }
    if forall|i: int| 0 <= i < n ==> !#[trigger] p(i) {
        assert forall|i: int, e: int| 0 <= i < n implies !#[trigger] begins_functions(s, i, e) by {
            lemma_functions_header(s, i);
            assert(!p(i));
        }
    }
}

/// A source has no `functions { }` block exactly if none begins in it.
pub proof fn law_source_may_have_no_functions_block(s: Seq<char>)
    ensures
        functions_block(s) is None <==> no_functions_before(s, s.len() as int),
{
    lemma_first_found(functions_header(s), 0, s.len() as int);
    lemma_no_functions(s, s.len() as int);
}

/// The `functions { }` block of a source is the first that begins in it: what is found is its brace.
pub proof fn law_functions_block_is_the_first(s: Seq<char>, i: int, e: int)
    requires
        begins_functions(s, i, e),
        no_functions_before(s, i),
    ensures
        functions_block(s) == Some(e),
{
    reveal_strlit("functions");
    let p = functions_header(s);
    let n = s.len() as int;
    lemma_first_found(p, 0, n);
    lemma_functions_header(s, i);
    lemma_no_functions(s, i);
    assert(p(i));
    let k = first_from(p, 0, n)->0;
    if k < i {
        assert(p(k));
    }
    assert(k == i);
}

/// A header is one.
proof fn lemma_functions_header(s: Seq<char>, i: int)
    requires
        0 <= i < s.len(),
    ensures
        functions_header(s)(i) <==> exists|e: int| begins_functions(s, i, e),
        forall|e: int| #[trigger] begins_functions(s, i, e) ==> e == functions_brace(s, i),
{
    reveal_strlit("functions");
    if i + 9 <= s.len() {
        lemma_leads_to(s, i + 9, '{');
        assert forall|e: int| #[trigger] begins_functions(s, i, e) implies e == functions_brace(
            s,
            i,
        ) by {
            assert(leads_to(s, i + 9, e, '{'));
        }
        if functions_header(s)(i) {
            let behind = i + 9;
            let e = choose|e: int| leads_to(s, behind, e, '{');
            assert(leads_to(s, i + 9, e, '{'));
            assert(begins_functions(s, i, e));
        }
    }
}

// Calls -------------------------------------------------------------------

/// The characters of `s` can all stand in an identifier.
pub open spec fn is_ident_text(s: Seq<char>) -> bool {
    s.len() > 0 && forall|i: int|
        0 <= i < s.len() ==> is_alphanumeric(#[trigger] s[i]) || s[i] == '_'
}

/// At `start` stands `package::func` as code, with no identifier character or code before it, and
/// with white space and a `(` at `e` behind it.
pub open spec fn is_call_of(
    s: Seq<char>,
    package: Seq<char>,
    func: Seq<char>,
    start: int,
    e: int,
) -> bool {
    let end = start + package.len() + 2 + func.len();
    &&& is_ident_text(package)
    &&& is_ident_text(func)
    &&& 0 <= start
    &&& end <= s.len()
    &&& s.subrange(start, end) == package + "::"@ + func
    &&& forall|j: int| start <= j < end ==> #[trigger] is_code(s, j)
    &&& start > 0 ==> !(is_ident(s[start - 1]) && is_code(s, start - 1))
    &&& leads_to(s, end, e, '(')
}

/// Every call of the form `package::func(` is listed, with its names and where it stands.
pub proof fn law_written_call_is_listed(
    s: Seq<char>,
    package: Seq<char>,
    func: Seq<char>,
    start: int,
    e: int,
)
    requires
        is_call_of(s, package, func, start, e),
    ensures
        call_sites(s).contains(
            CallSite { package, func, start, end: start + package.len() + 2 + func.len() },
        ),
{
    reveal_strlit("::");
    let i = start + package.len();
    let end = i + 2 + func.len();
    let text = package + "::"@ + func;
    let part = s.subrange(start, end);
    assert forall|j: int| start <= j < i implies is_ident(#[trigger] s[j]) by {
        assert(s[j] == part[j - start]);
        assert(text[j - start] == package[j - start]);
        assert(is_alphanumeric(package[j - start]) || package[j - start] == '_');
    }
    assert forall|j: int| i + 2 <= j < end implies is_ident(#[trigger] s[j]) by {
        assert(s[j] == part[j - start]);
        assert(text[j - start] == func[j - i - 2]);
        assert(is_alphanumeric(func[j - i - 2]) || func[j - i - 2] == '_');
    }
    assert(part[package.len() as int] == s[i] && part[package.len() as int + 1] == s[i + 1]);
    assert(text[package.len() as int] == ':' && text[package.len() as int + 1] == ':');
    lemma_ident_reaches_back(s, start, i);
    lemma_ident_reaches_on(s, i + 2, end);
    assert(s[e] == '(');
    assert(!(end < s.len() && is_ident(s[end]))) by {
        if end < e {
            assert(is_space(s[end]));
        }
    }
    assert(ident_end(s, end) == end);
    lemma_leads_to(s, end, '(');
    assert(is_code(s, i));
    assert(is_qualifier(s, i));
    law_every_call_site_is_listed(s, i);
    assert(s.subrange(start, i) =~= package) by {
        assert forall|j: int| 0 <= j < package.len() implies s[start + j] == package[j] by {
            assert(part[j] == text[j]);
        }
    }
    assert(s.subrange(i + 2, end) =~= func) by {
        assert forall|j: int| 0 <= j < func.len() implies s[i + 2 + j] == func[j] by {
            assert(part[package.len() as int + 2 + j] == text[package.len() as int + 2 + j]);
        }
    }
}

/// A run of identifier characters reaches back to where it begins.
proof fn lemma_ident_reaches_back(s: Seq<char>, start: int, i: int)
    requires
        0 <= start <= i <= s.len(),
        forall|j: int| start <= j < i ==> is_ident(#[trigger] s[j]),
        forall|j: int| start <= j < i ==> #[trigger] is_code(s, j),
        start > 0 ==> !(is_ident(s[start - 1]) && is_code(s, start - 1)),
    ensures
        ident_start(s, i) == start,
    decreases i - start,
{
    if start < i {
        assert(is_ident(s[i - 1]) && is_code(s, i - 1));
        lemma_ident_reaches_back(s, start, i - 1);
    }
}

/// A run of identifier characters reaches on to where it ends.
proof fn lemma_ident_reaches_on(s: Seq<char>, i: int, end: int)
    requires
        0 <= i <= end <= s.len(),
        forall|j: int| i <= j < end ==> is_ident(#[trigger] s[j]),
        forall|j: int| i <= j < end ==> #[trigger] is_code(s, j),
    ensures
        ident_end(s, i) == ident_end(s, end),
    decreases end - i,
{
    if i < end {
        assert(is_ident(s[i]) && is_code(s, i));
        lemma_ident_reaches_on(s, i + 1, end);
    }
}

/// What is listed as a call is one.
pub proof fn law_listed_calls_are_calls(s: Seq<char>, k: int)
    requires
        0 <= k < call_sites(s).len(),
    ensures
        ({
            let site = call_sites(s)[k];
            &&& exists|e: int| is_call_of(s, site.package, site.func, site.start, e)
            &&& site.end == site.start + site.package.len() + 2 + site.func.len()
        }),
{
    reveal_strlit("::");
    let n = s.len() as int;
    let site = call_sites(s)[k];
    lemma_sites_have_qualifiers(s, n, k);
    let i = choose|i: int| i < n && #[trigger] is_qualifier(s, i) && site == call_site(s, i);
    lemma_call_site_bounds(s, i);
    law_call_site_reads_as_call(s, i);
    let end = site.end;
    lemma_leads_to(s, end, '(');
    let e = choose|e: int| leads_to(s, end, e, '(');
    assert(leads_to(s, end, e, '('));
    assert forall|j: int| site.start <= j < end implies #[trigger] is_code(s, j) by {
        law_call_site_is_code(s, i, j);
    }
    assert(site.start > 0 ==> !(is_ident(s[site.start - 1]) && is_code(s, site.start - 1))) by {
        lemma_ident_start_stops(s, i);
    }
    assert(is_ident_text(site.package)) by {
        assert forall|j: int| 0 <= j < site.package.len() implies is_alphanumeric(
            #[trigger] site.package[j],
        ) || site.package[j] == '_' by {
            assert(is_ident(site.package[j]));
        }
    }
    assert(is_ident_text(site.func)) by {
        assert forall|j: int| 0 <= j < site.func.len() implies is_alphanumeric(
            #[trigger] site.func[j],
        ) || site.func[j] == '_' by {
            assert(is_ident(site.func[j]));
        }
    }
    assert(is_call_of(s, site.package, site.func, site.start, e));
}

/// A run of identifier characters reaches back as far as it can.
proof fn lemma_ident_start_stops(s: Seq<char>, i: int)
    requires
        0 <= i <= s.len(),
    ensures
        ({
            let a = ident_start(s, i);
            a > 0 ==> !(is_ident(s[a - 1]) && is_code(s, a - 1))
        }),
    decreases i,
{
    if 0 < i && is_ident(s[i - 1]) && is_code(s, i - 1) {
        lemma_ident_start_stops(s, i - 1);
    }
}

/// A name is called where it stands as a word that begins as code, with white space and a `(` behind
/// it, and nowhere else.
pub proof fn law_call_has_a_parenthesis(s: Seq<char>, name: Seq<char>, i: int)
    requires
        0 <= i < s.len(),
    ensures
        is_call_site(s, name, i) <==> is_word_at(s, name, i) && is_code(s, i) && is_led_to(
            s,
            i + name.len(),
            '(',
        ),
{
    if i + name.len() <= s.len() {
        lemma_leads_to(s, i + name.len(), '(');
    }
}

} // verus!
